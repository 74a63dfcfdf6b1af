use vstd::prelude::*;

use crate::Directed;
use crate::Direction;
use crate::Flow;
use crate::Graph;
use crate::edge::Edge;

verus! {

/// A vertex of the graph: its own arena index, a payload value, and the
/// ordered list of indices of edges incident to it.
pub struct Vertex<V> {
    pub index: usize,
    pub val: V,
    pub edges: Vec<usize>,
}

impl<V> Vertex<V> {
    /// A lazy traversal of every edge incident to this vertex, in
    /// incident-list order.
    pub fn edges<'v, 'g, E, F: Flow>(&'v self, graph: &'g Graph<V, E, F>) -> (r: EdgeIter<
        'v,
        'g,
        V,
        E,
        F,
    >)
        requires
            graph.wf(),
            graph.vert_live(self.index as int),
            *self == graph.vert_at(self.index as int),
        ensures
            r.wf(),
            r.vert == self,
            r.graph == graph,
            r.dir is Any,
            r.i == 0,
    {
        EdgeIter { vert: self, graph, dir: Direction::Any, i: 0 }
    }

    /// A lazy traversal of the incident edges that leave this vertex.
    pub fn outgoing<'v, 'g, E>(&'v self, graph: &'g Graph<V, E, Directed>) -> (r: EdgeIter<
        'v,
        'g,
        V,
        E,
        Directed,
    >)
        requires
            graph.wf(),
            graph.vert_live(self.index as int),
            *self == graph.vert_at(self.index as int),
        ensures
            r.wf(),
            r.vert == self,
            r.graph == graph,
            r.dir is Out,
            r.i == 0,
    {
        EdgeIter { vert: self, graph, dir: Direction::Out, i: 0 }
    }

    /// A lazy traversal of the incident edges that arrive at this vertex.
    pub fn incoming<'v, 'g, E>(&'v self, graph: &'g Graph<V, E, Directed>) -> (r: EdgeIter<
        'v,
        'g,
        V,
        E,
        Directed,
    >)
        requires
            graph.wf(),
            graph.vert_live(self.index as int),
            *self == graph.vert_at(self.index as int),
        ensures
            r.wf(),
            r.vert == self,
            r.graph == graph,
            r.dir is In,
            r.i == 0,
    {
        EdgeIter { vert: self, graph, dir: Direction::In, i: 0 }
    }

    /// Exchanges this vertex's payload with `n`.
    pub fn swap(&mut self, n: &mut V)
        ensures
            final(self).val == *old(n),
            *final(n) == old(self).val,
            final(self).index == old(self).index,
            final(self).edges == old(self).edges,
    {
        core::mem::swap(&mut self.val, n);
    }
}

/// A restartable cursor over the edges incident to one vertex, filtered by
/// direction. It is created afresh per traversal; mutating the graph while a
/// cursor is live is ruled out by borrowing.
pub struct EdgeIter<'v, 'g, V, E, F: Flow> {
    pub vert: &'v Vertex<V>,
    pub graph: &'g Graph<V, E, F>,
    pub dir: Direction,
    pub i: usize,
}

impl<'v, 'g, V, E, F: Flow> EdgeIter<'v, 'g, V, E, F> {
    /// The cursor points into a well-formed graph at the vertex it was
    /// created from.
    pub open spec fn wf(self) -> bool {
        &&& self.graph.wf()
        &&& self.graph.vert_live(self.vert.index as int)
        &&& *self.vert == self.graph.vert_at(self.vert.index as int)
        &&& self.i <= self.graph.adj(self.vert.index as int).len()
    }

    /// The direction filter accepts live edge `e`.
    pub open spec fn accepts(self, e: int) -> bool {
        match self.dir {
            Direction::Any => true,
            Direction::Out => self.graph.edge_at(e).verts.0 == self.vert.index,
            Direction::In => self.graph.edge_at(e).verts.1 == self.vert.index,
        }
    }

    /// The incident-edge list this cursor walks.
    pub open spec fn list(self) -> Seq<usize> {
        self.graph.adj(self.vert.index as int)
    }

    /// Yields the next incident edge accepted by the direction filter, or
    /// `None` when the list is exhausted.
    pub fn next(&mut self) -> (r: Option<&'g Edge<E>>)
        requires
            old(self).wf(),
        ensures
            final(self).wf(),
            final(self).vert == old(self).vert,
            final(self).graph == old(self).graph,
            final(self).dir == old(self).dir,
            match r {
                Some(e) => {
                    &&& exists|k: int|
                        {
                            &&& old(self).i <= k < old(self).list().len()
                            &&& final(self).i == k + 1
                            &&& *e == old(self).graph.edge_at(
                                #[trigger] old(self).list()[k] as int,
                            )
                            &&& old(self).accepts(old(self).list()[k] as int)
                            &&& forall|j: int|
                                old(self).i <= j < k ==> !old(self).accepts(
                                    #[trigger] old(self).list()[j] as int,
                                )
                        }
                },
                None => {
                    &&& final(self).i == old(self).list().len()
                    &&& forall|j: int|
                        old(self).i <= j < old(self).list().len() ==> !old(self).accepts(
                            #[trigger] old(self).list()[j] as int,
                        )
                },
            },
    {
        while self.i < self.vert.edges.len()
            invariant
                self.wf(),
                self.vert == old(self).vert,
                self.graph == old(self).graph,
                self.dir == old(self).dir,
                old(self).i <= self.i,
                forall|j: int|
                    old(self).i <= j < self.i ==> !old(self).accepts(
                        #[trigger] old(self).list()[j] as int,
                    ),
            decreases self.vert.edges.len() - self.i,
        {
            let ei = self.vert.edges[self.i];
            proof {
                assert(self.graph.adj(self.vert.index as int)[self.i as int] == ei);
                assert(self.graph.edge_live(ei as int));
            }
            let edge = self.graph.edge(ei);
            let ghost kk = self.i as int;
            self.i = self.i + 1;
            match self.dir {
                Direction::Any => {
                    proof {
                        assert(old(self).list()[kk] == ei);
                        assert(old(self).accepts(old(self).list()[kk] as int));
                    }
                    return Some(edge);
                },
                Direction::Out => {
                    if self.vert.index == edge.verts.0 {
                        proof {
                            assert(old(self).list()[kk] == ei);
                            assert(old(self).accepts(old(self).list()[kk] as int));
                        }
                        return Some(edge);
                    }
                },
                Direction::In => {
                    if self.vert.index == edge.verts.1 {
                        proof {
                            assert(old(self).list()[kk] == ei);
                            assert(old(self).accepts(old(self).list()[kk] as int));
                        }
                        return Some(edge);
                    }
                },
            }
        }
        None
    }
}

} // verus!
