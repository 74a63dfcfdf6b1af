use vstd::prelude::*;

use crate::Flow;
use crate::Graph;
use crate::vert::Vertex;

verus! {

/// An edge of the graph: a stable arena index, a weight, and its two
/// endpoint vertex indices. For a directed graph, `verts.0` is the source
/// and `verts.1` the target.
pub struct Edge<E> {
    pub index: usize,
    pub weight: E,
    pub verts: (usize, usize),
}

impl<E> Edge<E> {
    /// True when `v` is one of this edge's endpoints.
    pub open spec fn spec_touches(self, v: int) -> bool {
        self.verts.0 == v || self.verts.1 == v
    }

    pub fn new(index: usize, weight: E, from: usize, to: usize) -> (r: Self)
        ensures
            r.index == index,
            r.weight == weight,
            r.verts == (from, to),
    {
        Self { index, weight, verts: (from, to) }
    }

    /// The source vertex of this edge.
    pub fn start<'v, V, F: Flow>(&self, graph: &'v Graph<V, E, F>) -> (r: &'v Vertex<V>)
        requires
            graph.vert_live(self.verts.0 as int),
        ensures
            *r == graph.vert_at(self.verts.0 as int),
    {
        graph.vert(self.verts.0)
    }

    /// The target vertex of this edge.
    pub fn end<'v, V, F: Flow>(&self, graph: &'v Graph<V, E, F>) -> (r: &'v Vertex<V>)
        requires
            graph.vert_live(self.verts.1 as int),
        ensures
            *r == graph.vert_at(self.verts.1 as int),
    {
        graph.vert(self.verts.1)
    }

    /// Both endpoint vertices, source first.
    pub fn verts<'v, V, F: Flow>(&self, graph: &'v Graph<V, E, F>) -> (r: (
        &'v Vertex<V>,
        &'v Vertex<V>,
    ))
        requires
            graph.vert_live(self.verts.0 as int),
            graph.vert_live(self.verts.1 as int),
        ensures
            *r.0 == graph.vert_at(self.verts.0 as int),
            *r.1 == graph.vert_at(self.verts.1 as int),
    {
        (self.start(graph), self.end(graph))
    }

    /// Exclusive access to the source vertex of this edge.
    pub fn start_mut<'v, V, F: Flow>(&self, graph: &'v mut Graph<V, E, F>) -> (r: &'v mut Vertex<
        V,
    >)
        requires
            old(graph).vert_live(self.verts.0 as int),
        ensures
            *r == old(graph).vert_at(self.verts.0 as int),
            final(graph).verts@ == old(graph).verts@.update(
                self.verts.0 as int,
                Some(*final(r)),
            ),
            final(graph).edges == old(graph).edges,
            final(graph).empty_v == old(graph).empty_v,
            final(graph).empty_e == old(graph).empty_e,
    {
        graph.vert_mut(self.verts.0)
    }

    /// Exclusive access to the target vertex of this edge.
    pub fn end_mut<'v, V, F: Flow>(&self, graph: &'v mut Graph<V, E, F>) -> (r: &'v mut Vertex<V>)
        requires
            old(graph).vert_live(self.verts.1 as int),
        ensures
            *r == old(graph).vert_at(self.verts.1 as int),
            final(graph).verts@ == old(graph).verts@.update(
                self.verts.1 as int,
                Some(*final(r)),
            ),
            final(graph).edges == old(graph).edges,
            final(graph).empty_v == old(graph).empty_v,
            final(graph).empty_e == old(graph).empty_e,
    {
        graph.vert_mut(self.verts.1)
    }
}

} // verus!
