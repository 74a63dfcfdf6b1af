use vstd::prelude::*;

pub mod conv;
pub mod edge;
pub mod tree;
pub mod vert;

pub use conv::Converter;
pub use edge::Edge;
pub use tree::Tree;
pub use vert::EdgeIter;
pub use vert::Vertex;

use core::marker::PhantomData;

verus! {

/// The direction tag of a graph, fixed at the type level: `Directed` edges
/// distinguish source from target, `Undirected` edges do not.
pub trait Flow {
    spec fn dir_spec() -> bool;

    fn dir() -> (b: bool)
        ensures
            b == Self::dir_spec(),
    ;
}

/// Marker for graphs whose edges have a meaningful direction.
pub struct Directed;

impl Flow for Directed {
    open spec fn dir_spec() -> bool {
        true
    }

    fn dir() -> bool {
        true
    }
}

/// Marker for graphs whose edges are symmetric.
pub struct Undirected;

impl Flow for Undirected {
    open spec fn dir_spec() -> bool {
        false
    }

    fn dir() -> bool {
        false
    }
}

/// A filter on adjacency traversal: incoming edges, outgoing edges, or all
/// incident edges.
pub enum Direction {
    In,
    Out,
    Any,
}

/// An arena-backed graph. Vertices and edges live in growable slot tables
/// behind stable numeric indices; removal vacates a slot and records it on a
/// free list for reuse, so surviving indices stay valid across edits.
pub struct Graph<V, E, F: Flow> {
    pub verts: Vec<Option<Vertex<V>>>,
    pub edges: Vec<Option<Edge<E>>>,
    pub empty_v: Vec<usize>,
    pub empty_e: Vec<usize>,
    pub flow: PhantomData<F>,
}

/// Law: in a well-formed graph, an edge's index stands on a live vertex's
/// incident-edge list exactly when that vertex is one of the edge's
/// endpoints — the bidirectional consistency invariant, for every live
/// vertex and every live edge.
pub proof fn lemma_incidence<V, E, F: Flow>(g: Graph<V, E, F>, v: usize, e: usize)
    requires
        g.wf(),
        g.vert_live(v as int),
        g.edge_live(e as int),
    ensures
        g.adj(v as int).contains(e) <==> g.touches(e as int, v as int),
{
    if g.adj(v as int).contains(e) {
        let k = choose|k: int| 0 <= k < g.adj(v as int).len() && g.adj(v as int)[k] == e;
        assert(g.touches(g.adj(v as int)[k] as int, v as int));
    }
    if g.touches(e as int, v as int) {
        assert(g.adj(g.edge_at(e as int).verts.0 as int).contains(e));
        assert(g.adj(g.edge_at(e as int).verts.1 as int).contains(e));
    }
}

/// Law: when the vertex free list is empty before a removal, the next
/// insertion reuses exactly the removed slot. The two hypotheses are the
/// removal and insertion relations that `rem_vert` and `add_vert` ensure.
pub proof fn lemma_reuse_after_remove<V, E, F: Flow>(
    g0: Graph<V, E, F>,
    g1: Graph<V, E, F>,
    g2: Graph<V, E, F>,
    i: usize,
    removed: Seq<Edge<E>>,
    val: V,
    r: usize,
)
    requires
        g0.empty_v@.len() == 0,
        Graph::vert_removed(g0, g1, i, removed),
        Graph::vert_added(g1, g2, val, r),
    ensures
        r == i,
{
    assert(g1.empty_v@ == g0.empty_v@.push(i));
    assert(g1.empty_v@.last() == i);
}

/// Law: isolating a region and merging the part back restores the arena
/// sizes, leaves every vertex outside the region untouched in payload and
/// adjacency, and brings every region vertex back with its payload at an
/// index in the appended range. The hypotheses are the relations that
/// `isolate` and `merge` ensure.
pub proof fn lemma_isolate_merge_round_trip<V, E, F: Flow>(
    g0: Graph<V, E, F>,
    g1: Graph<V, E, F>,
    part: Graph<V, E, F>,
    table: Seq<Option<usize>>,
    index: usize,
    g2: Graph<V, E, F>,
)
    requires
        Graph::isolated(g0, g1, part, table, index),
        Graph::merged(g1, part, g2),
    ensures
        g2.verts@.len() == g0.verts@.len() + part.verts@.len(),
        g2.edges@.len() == g0.edges@.len() + part.edges@.len(),
        forall|v: int|
            0 <= v < g0.verts@.len() && (#[trigger] table[v]) is None && !g0.vert_live(v)
                ==> g2.verts@[v] == g0.verts@[v],
        forall|v: int|
            0 <= v < g0.verts@.len() && (#[trigger] table[v]) is None && g0.vert_live(v) ==> {
                &&& g2.vert_live(v)
                &&& g2.vert_at(v).val == g0.vert_at(v).val
                &&& g2.adj(v) == g0.adj(v)
            },
        forall|v: int|
            0 <= v < g0.verts@.len() && (#[trigger] table[v]) is Some ==> exists|nv: int|
                {
                    &&& g1.verts@.len() <= nv < g2.verts@.len()
                    &&& #[trigger] g2.vert_live(nv)
                    &&& g2.vert_at(nv).val == g0.vert_at(v).val
                },
{
    let vo = g1.verts@.len() as int;
    let order = choose|order: Seq<usize>|
        #![trigger Graph::<V, E, F>::region_order(g0, table, order)]
        Graph::<V, E, F>::region_order(g0, table, order) && Graph::<V, E, F>::extracted(
            g0,
            g1,
            part,
            table,
            order,
        );
    assert(Graph::<V, E, F>::region_order(g0, table, order));
    assert(Graph::<V, E, F>::extracted(g0, g1, part, table, order));
    assert(g1.verts@.len() == g0.verts@.len());
    assert(g1.edges@.len() == g0.edges@.len());
    assert forall|v: int|
        0 <= v < g0.verts@.len() && (#[trigger] table[v]) is None && !g0.vert_live(v) implies g2
        .verts@[v] == g0.verts@[v] by {
        assert(g1.verts@[v] == g0.verts@[v]);
        assert(g2.verts@[v] == g1.verts@[v]);
    }
    assert forall|v: int|
        0 <= v < g0.verts@.len() && (#[trigger] table[v]) is None && g0.vert_live(v) implies {
        &&& g2.vert_live(v)
        &&& g2.vert_at(v).val == g0.vert_at(v).val
        &&& g2.adj(v) == g0.adj(v)
    } by {
        assert(g1.vert_at(v).val == g0.vert_at(v).val && g1.adj(v) == g0.adj(v));
        assert(g2.verts@[v] == g1.verts@[v]);
    }
    assert forall|v: int|
        0 <= v < g0.verts@.len() && (#[trigger] table[v]) is Some implies exists|nv: int|
            {
                &&& g1.verts@.len() <= nv < g2.verts@.len()
                &&& #[trigger] g2.vert_live(nv)
                &&& g2.vert_at(nv).val == g0.vert_at(v).val
            } by {
        assert(order.contains(v as usize));
        let t = choose|t: int| 0 <= t < order.len() && order[t] == v as usize;
        assert(table[order[t] as int] == Some(t as usize));
        assert(part.vert_live(t));
        assert(part.vert_at(t).val == g0.vert_at(order[t] as int).val);
        assert(g2.vert_live(t + vo));
        assert(g2.vert_at(t + vo).val == part.vert_at(t).val);
        assert(order[t] as int == v);
        assert(g2.vert_at(t + vo).val == g0.vert_at(v).val);
    }
}

/// A value other than the last element, contained in a sequence, is still
/// contained after the last element is dropped.
proof fn lemma_drop_last_contains(s: Seq<usize>, x: usize)
    requires
        s.contains(x),
        s.len() > 0,
        x != s.last(),
    ensures
        s.drop_last().contains(x),
{
    let j = choose|j: int| 0 <= j < s.len() && s[j] == x;
    assert(j < s.len() - 1);
    assert(s.drop_last()[j] == x);
}

/// A graph assembled by `merge` from two well-formed graphs is well-formed.
#[verifier::spinoff_prover]
proof fn lemma_merge_wf<V, E, F: Flow>(
    pre: Graph<V, E, F>,
    other: Graph<V, E, F>,
    post: Graph<V, E, F>,
)
    requires
        pre.wf(),
        other.wf(),
        pre.verts@.len() + other.verts@.len() <= usize::MAX,
        pre.edges@.len() + other.edges@.len() <= usize::MAX,
        Graph::merged(pre, other, post),
    ensures
        post.wf(),
{
    let vo = pre.verts@.len() as int;
    let eo = pre.edges@.len() as int;
    assert forall|i: int| #[trigger] post.vert_live(i) implies post.vert_at(i).index == i by {
        if i < vo {
            assert(post.verts@[i] == pre.verts@[i]);
            assert(pre.vert_live(i));
        } else {
            assert(post.vert_live((i - vo) + vo));
            assert(other.vert_live(i - vo));
        }
    }
    assert forall|e: int| #[trigger] post.edge_live(e) implies {
        &&& post.edge_at(e).index == e
        &&& post.vert_live(post.edge_at(e).verts.0 as int)
        &&& post.vert_live(post.edge_at(e).verts.1 as int)
    } by {
        if e < eo {
            assert(post.edges@[e] == pre.edges@[e]);
            assert(pre.edge_live(e));
            assert(pre.vert_live(pre.edge_at(e).verts.0 as int));
            assert(pre.vert_live(pre.edge_at(e).verts.1 as int));
            assert(post.verts@[pre.edge_at(e).verts.0 as int] == pre.verts@[pre.edge_at(
                e,
            ).verts.0 as int]);
            assert(post.verts@[pre.edge_at(e).verts.1 as int] == pre.verts@[pre.edge_at(
                e,
            ).verts.1 as int]);
        } else {
            let j = e - eo;
            assert(post.edge_live(j + eo));
            assert(other.edge_live(j));
            assert(other.vert_live(other.edge_at(j).verts.0 as int));
            assert(other.vert_live(other.edge_at(j).verts.1 as int));
            assert(post.vert_live(other.edge_at(j).verts.0 + vo));
            assert(post.vert_live(other.edge_at(j).verts.1 + vo));
        }
    }
    assert forall|v: int, k: int| post.vert_live(v) && 0 <= k < post.adj(v).len() implies {
        &&& post.edge_live(#[trigger] post.adj(v)[k] as int)
        &&& post.touches(post.adj(v)[k] as int, v)
    } by {
        if v < vo {
            assert(post.verts@[v] == pre.verts@[v]);
            assert(pre.vert_live(v));
            assert(pre.edge_live(pre.adj(v)[k] as int));
            assert(pre.touches(pre.adj(v)[k] as int, v));
            let x = pre.adj(v)[k] as int;
            assert(post.edges@[x] == pre.edges@[x]);
        } else {
            let i = v - vo;
            assert(post.vert_live(i + vo));
            assert(other.vert_live(i));
            assert(post.adj(i + vo)[k] == other.adj(i)[k] + eo);
            let x = other.adj(i)[k] as int;
            assert(other.edge_live(x));
            assert(other.touches(x, i));
            assert(post.edge_live(x + eo));
            assert(post.edge_at(x + eo).verts.0 == other.edge_at(x).verts.0 + vo);
            assert(post.edge_at(x + eo).verts.1 == other.edge_at(x).verts.1 + vo);
        }
    }
    assert forall|e: int| #[trigger] post.edge_live(e) implies {
        &&& post.adj(post.edge_at(e).verts.0 as int).contains(e as usize)
        &&& post.adj(post.edge_at(e).verts.1 as int).contains(e as usize)
    } by {
        if e < eo {
            assert(post.edges@[e] == pre.edges@[e]);
            assert(pre.edge_live(e));
            let a = pre.edge_at(e).verts.0 as int;
            let b = pre.edge_at(e).verts.1 as int;
            assert(pre.vert_live(a) && pre.vert_live(b));
            assert(pre.adj(a).contains(e as usize));
            assert(pre.adj(b).contains(e as usize));
            assert(post.verts@[a] == pre.verts@[a]);
            assert(post.verts@[b] == pre.verts@[b]);
        } else {
            let j = e - eo;
            assert(post.edge_live(j + eo));
            assert(other.edge_live(j));
            let a = other.edge_at(j).verts.0 as int;
            let b = other.edge_at(j).verts.1 as int;
            assert(other.vert_live(a) && other.vert_live(b));
            assert(other.adj(a).contains(j as usize));
            assert(other.adj(b).contains(j as usize));
            let ka = choose|ka: int| 0 <= ka < other.adj(a).len() && other.adj(a)[ka] == j;
            let kb = choose|kb: int| 0 <= kb < other.adj(b).len() && other.adj(b)[kb] == j;
            assert(post.vert_live(a + vo));
            assert(post.vert_live(b + vo));
            assert(post.adj(a + vo)[ka] == other.adj(a)[ka] + eo);
            assert(post.adj(b + vo)[kb] == other.adj(b)[kb] + eo);
            assert(post.adj(post.edge_at(e).verts.0 as int).contains(e as usize)) by {
                assert(post.edge_at(e).verts.0 as int == a + vo);
                assert(post.adj(a + vo)[ka] == e as usize);
            }
            assert(post.adj(post.edge_at(e).verts.1 as int).contains(e as usize)) by {
                assert(post.edge_at(e).verts.1 as int == b + vo);
                assert(post.adj(b + vo)[kb] == e as usize);
            }
        }
    }
    assert forall|v: int| #[trigger] post.vert_live(v) implies post.adj(v).no_duplicates() by {
        if v < vo {
            assert(post.verts@[v] == pre.verts@[v]);
            assert(pre.vert_live(v));
            assert(pre.adj(v).no_duplicates());
        } else {
            let i = v - vo;
            assert(post.vert_live(i + vo));
            assert(other.vert_live(i));
            assert(other.adj(i).no_duplicates());
            assert forall|k1: int, k2: int|
                0 <= k1 < post.adj(v).len() && 0 <= k2 < post.adj(v).len() && k1
                    != k2 implies post.adj(v)[k1] != post.adj(v)[k2] by {
                assert(post.adj(i + vo)[k1] == other.adj(i)[k1] + eo);
                assert(post.adj(i + vo)[k2] == other.adj(i)[k2] + eo);
            }
        }
    }
    assert forall|k: int| 0 <= k < post.empty_v@.len() implies (
    #[trigger] post.empty_v@[k] as int) < post.verts@.len() && !post.vert_live(
        post.empty_v@[k] as int,
    ) by {
        if k < pre.empty_v@.len() {
            assert(post.empty_v@[k] == pre.empty_v@[k]);
            assert((pre.empty_v@[k] as int) < vo);
            assert(!pre.vert_live(pre.empty_v@[k] as int));
            assert(post.verts@[pre.empty_v@[k] as int] == pre.verts@[pre.empty_v@[k] as int]);
        } else {
            let z = k - pre.empty_v@.len();
            assert(post.empty_v@[z + pre.empty_v@.len()] == other.empty_v@[z] + vo);
            assert((other.empty_v@[z] as int) < other.verts@.len());
            assert(!other.vert_live(other.empty_v@[z] as int));
            assert(!post.vert_live(other.empty_v@[z] + vo));
        }
    }
    assert forall|i: int|
        0 <= i < post.verts@.len() && !(#[trigger] post.verts@[i] is Some) implies post
        .empty_v@.contains(i as usize) by {
        if i < vo {
            assert(post.verts@[i] == pre.verts@[i]);
            assert(pre.empty_v@.contains(i as usize));
            let k = choose|k: int| 0 <= k < pre.empty_v@.len() && pre.empty_v@[k] == i as usize;
            assert(post.empty_v@[k] == i as usize);
        } else {
            let z = i - vo;
            assert(post.vert_live(z + vo) <==> other.vert_live(z));
            assert(!other.vert_live(z));
            assert(other.empty_v@.contains(z as usize));
            let k = choose|k: int|
                0 <= k < other.empty_v@.len() && other.empty_v@[k] == z as usize;
            assert(post.empty_v@[k + pre.empty_v@.len()] == other.empty_v@[k] + vo);
            assert(post.empty_v@[k + pre.empty_v@.len()] as int == z + vo);
            assert((i as usize) as int == i);
            assert(post.empty_v@[k + pre.empty_v@.len()] == i as usize);
        }
    }
    assert(post.empty_v@.no_duplicates()) by {
        assert forall|k1: int, k2: int|
            0 <= k1 < post.empty_v@.len() && 0 <= k2 < post.empty_v@.len() && k1
                != k2 implies post.empty_v@[k1] != post.empty_v@[k2] by {
            if k1 < pre.empty_v@.len() {
                assert(post.empty_v@[k1] == pre.empty_v@[k1]);
                assert((pre.empty_v@[k1] as int) < vo);
            } else {
                assert(post.empty_v@[(k1 - pre.empty_v@.len()) + pre.empty_v@.len()]
                    == other.empty_v@[k1 - pre.empty_v@.len()] + vo);
            }
            if k2 < pre.empty_v@.len() {
                assert(post.empty_v@[k2] == pre.empty_v@[k2]);
                assert((pre.empty_v@[k2] as int) < vo);
            } else {
                assert(post.empty_v@[(k2 - pre.empty_v@.len()) + pre.empty_v@.len()]
                    == other.empty_v@[k2 - pre.empty_v@.len()] + vo);
            }
        }
    }
    assert forall|k: int| 0 <= k < post.empty_e@.len() implies (
    #[trigger] post.empty_e@[k] as int) < post.edges@.len() && !post.edge_live(
        post.empty_e@[k] as int,
    ) by {
        if k < pre.empty_e@.len() {
            assert(post.empty_e@[k] == pre.empty_e@[k]);
            assert((pre.empty_e@[k] as int) < eo);
            assert(!pre.edge_live(pre.empty_e@[k] as int));
            assert(post.edges@[pre.empty_e@[k] as int] == pre.edges@[pre.empty_e@[k] as int]);
        } else {
            let z = k - pre.empty_e@.len();
            assert(post.empty_e@[z + pre.empty_e@.len()] == other.empty_e@[z] + eo);
            assert((other.empty_e@[z] as int) < other.edges@.len());
            assert(!other.edge_live(other.empty_e@[z] as int));
            assert(!post.edge_live(other.empty_e@[z] + eo));
        }
    }
    assert forall|i: int|
        0 <= i < post.edges@.len() && !(#[trigger] post.edges@[i] is Some) implies post
        .empty_e@.contains(i as usize) by {
        if i < eo {
            assert(post.edges@[i] == pre.edges@[i]);
            assert(pre.empty_e@.contains(i as usize));
            let k = choose|k: int| 0 <= k < pre.empty_e@.len() && pre.empty_e@[k] == i as usize;
            assert(post.empty_e@[k] == i as usize);
        } else {
            let z = i - eo;
            assert(post.edge_live(z + eo) <==> other.edge_live(z));
            assert(!other.edge_live(z));
            assert(other.empty_e@.contains(z as usize));
            let k = choose|k: int|
                0 <= k < other.empty_e@.len() && other.empty_e@[k] == z as usize;
            assert(post.empty_e@[k + pre.empty_e@.len()] == other.empty_e@[k] + eo);
            assert(post.empty_e@[k + pre.empty_e@.len()] as int == z + eo);
            assert((i as usize) as int == i);
            assert(post.empty_e@[k + pre.empty_e@.len()] == i as usize);
        }
    }
    assert(post.empty_e@.no_duplicates()) by {
        assert forall|k1: int, k2: int|
            0 <= k1 < post.empty_e@.len() && 0 <= k2 < post.empty_e@.len() && k1
                != k2 implies post.empty_e@[k1] != post.empty_e@[k2] by {
            if k1 < pre.empty_e@.len() {
                assert(post.empty_e@[k1] == pre.empty_e@[k1]);
                assert((pre.empty_e@[k1] as int) < eo);
            } else {
                assert(post.empty_e@[(k1 - pre.empty_e@.len()) + pre.empty_e@.len()]
                    == other.empty_e@[k1 - pre.empty_e@.len()] + eo);
            }
            if k2 < pre.empty_e@.len() {
                assert(post.empty_e@[k2] == pre.empty_e@[k2]);
                assert((pre.empty_e@[k2] as int) < eo);
            } else {
                assert(post.empty_e@[(k2 - pre.empty_e@.len()) + pre.empty_e@.len()]
                    == other.empty_e@[k2 - pre.empty_e@.len()] + eo);
            }
        }
    }
}

/// How many entries of a sequence of marks are still unset.
pub open spec fn count_unmarked(s: Seq<bool>) -> nat
    decreases s.len(),
{
    if s.len() == 0 {
        0
    } else {
        count_unmarked(s.drop_last()) + if s.last() {
            0nat
        } else {
            1nat
        }
    }
}

/// Setting one unset mark lowers the number of unset marks by one.
proof fn lemma_count_unmarked_update(s: Seq<bool>, i: int)
    requires
        0 <= i < s.len(),
        !s[i],
    ensures
        count_unmarked(s) == count_unmarked(s.update(i, true)) + 1,
    decreases s.len(),
{
    let u = s.update(i, true);
    if i == s.len() - 1 {
        assert(u.drop_last() =~= s.drop_last());
        assert(u.last());
        assert(!s.last());
    } else {
        assert(u.drop_last() =~= s.drop_last().update(i, true));
        assert(u.last() == s.last());
        lemma_count_unmarked_update(s.drop_last(), i);
    }
}

/// A sequence sharing no value with `rem` survives `drop_all` unchanged.
proof fn lemma_drop_all_disjoint(s: Seq<usize>, rem: Seq<usize>)
    requires
        forall|k: int| 0 <= k < s.len() ==> !rem.contains(#[trigger] s[k]),
    ensures
        drop_all(s, rem) == s,
    decreases s.len(),
{
    if s.len() > 0 {
        assert(!rem.contains(s[0]));
        assert forall|k: int| 0 <= k < s.drop_first().len() implies !rem.contains(
            #[trigger] s.drop_first()[k],
        ) by {
            assert(s.drop_first()[k] == s[k + 1]);
        }
        lemma_drop_all_disjoint(s.drop_first(), rem);
        assert(seq![s[0]] + s.drop_first() =~= s);
    }
}

/// A vertex stays reachable when a path is extended along one more edge.
proof fn lemma_reach_step<V, E, F: Flow>(g: Graph<V, E, F>, a: int, b: int, c: int)
    requires
        g.reaches(a, b),
        g.linked(b, c),
        g.vert_live(c),
    ensures
        g.reaches(a, c),
{
    let p = choose|p: Seq<int>|
        {
            &&& p.len() >= 1
            &&& p[0] == a
            &&& p.last() == b
            &&& forall|i: int| 0 <= i < p.len() ==> g.vert_live(#[trigger] p[i])
            &&& forall|i: int| 0 <= i < p.len() - 1 ==> g.linked(#[trigger] p[i], p[i + 1])
        };
    let q = p.push(c);
    assert(q[0] == a);
    assert(q.last() == c);
    assert forall|i: int| 0 <= i < q.len() implies g.vert_live(#[trigger] q[i]) by {
        if i < p.len() {
            assert(q[i] == p[i]);
        }
    }
    assert forall|i: int| 0 <= i < q.len() - 1 implies g.linked(#[trigger] q[i], q[i + 1]) by {
        if i < p.len() - 1 {
            assert(q[i] == p[i] && q[i + 1] == p[i + 1]);
        } else {
            assert(q[i] == p.last() && q[i + 1] == c);
        }
    }
}

/// Every live vertex reaches itself.
proof fn lemma_reach_self<V, E, F: Flow>(g: Graph<V, E, F>, a: int)
    requires
        g.vert_live(a),
    ensures
        g.reaches(a, a),
{
    let p = seq![a];
    assert(p[0] == a && p.last() == a && p.len() == 1);
    assert(g.reaches(a, a)) by {
        assert(forall|i: int| 0 <= i < p.len() ==> g.vert_live(#[trigger] p[i]));
        assert(forall|i: int| 0 <= i < p.len() - 1 ==> g.linked(#[trigger] p[i], p[i + 1]));
    }
}

/// In a well-formed graph, a set of vertices that contains one end of every
/// path step it meets swallows whole paths: whatever the start reaches is in
/// the set.
proof fn lemma_closed_set_reaches<V, E, F: Flow>(
    g: Graph<V, E, F>,
    marked: Seq<bool>,
    start: int,
    p: Seq<int>,
    upto: int,
)
    requires
        g.wf(),
        marked.len() == g.verts@.len(),
        marked[start],
        forall|e: int|
            #[trigger] g.edge_live(e) ==> (marked[g.edge_at(e).verts.0 as int]
                <==> marked[g.edge_at(e).verts.1 as int]),
        p.len() >= 1,
        p[0] == start,
        forall|i: int| 0 <= i < p.len() ==> g.vert_live(#[trigger] p[i]),
        forall|i: int| 0 <= i < p.len() - 1 ==> g.linked(#[trigger] p[i], p[i + 1]),
        0 <= upto < p.len(),
    ensures
        marked[p[upto]],
    decreases upto,
{
    if upto > 0 {
        lemma_closed_set_reaches(g, marked, start, p, upto - 1);
        assert(g.linked(p[upto - 1], p[upto]));
        let e = choose|e: int|
            #[trigger] g.edge_live(e) && g.touches(e, p[upto - 1]) && g.touches(e, p[upto]);
        assert(marked[p[upto]]);
    }
}

/// Inserting an element into a sequence adds exactly that element to its
/// members, and keeps the members duplicate-free when the element is new.
proof fn lemma_insert_elems(s: Seq<usize>, pos: int, a: usize)
    requires
        0 <= pos <= s.len(),
    ensures
        forall|x: usize| s.insert(pos, a).contains(x) <==> (s.contains(x) || x == a),
        s.no_duplicates() && !s.contains(a) ==> s.insert(pos, a).no_duplicates(),
{
    s.insert_ensures(pos, a);
    let t = s.insert(pos, a);
    assert forall|x: usize| t.contains(x) implies (s.contains(x) || x == a) by {
        let i = choose|i: int| 0 <= i < t.len() && t[i] == x;
        if i < pos {
            assert(s[i] == x);
        } else if i > pos {
            assert(s[i - 1] == x);
        }
    }
    assert forall|x: usize| s.contains(x) implies t.contains(x) by {
        let j = choose|j: int| 0 <= j < s.len() && s[j] == x;
        if j < pos {
            assert(t[j] == x);
        } else {
            assert(t[j + 1] == x);
        }
    }
    if s.no_duplicates() && !s.contains(a) {
        assert forall|i: int, j: int| 0 <= i < t.len() && 0 <= j < t.len() && i != j implies t[i]
            != t[j] by {
            if i < pos {
                assert(t[i] == s[i]);
            } else if i > pos {
                assert(t[i] == s[i - 1]);
            }
            if j < pos {
                assert(t[j] == s[j]);
            } else if j > pos {
                assert(t[j] == s[j - 1]);
            }
            if i == pos {
                assert(t[i] == a);
                assert(!s.contains(a));
                if j < pos {
                    assert(s.contains(s[j]));
                } else {
                    assert(s.contains(s[j - 1]));
                }
            } else if j == pos {
                assert(t[j] == a);
                if i < pos {
                    assert(s.contains(s[i]));
                } else {
                    assert(s.contains(s[i - 1]));
                }
            }
        }
        assert(t.no_duplicates());
    }
}

/// Removing the first (and, in a duplicate-free sequence, only) occurrence
/// of a value: the result is `remove_value`, stays duplicate-free, loses the
/// value, and keeps every other member.
proof fn lemma_remove_first_elems(s: Seq<usize>, pos: int, e: usize)
    requires
        0 <= pos < s.len(),
        s[pos] == e,
        forall|j: int| 0 <= j < pos ==> s[j] != e,
        s.no_duplicates(),
    ensures
        s.remove(pos) == s.remove_value(e),
        s.remove(pos).no_duplicates(),
        !s.remove(pos).contains(e),
        forall|x: usize| x != e ==> (s.remove(pos).contains(x) <==> s.contains(x)),
        s.remove(pos).len() == s.len() - 1,
{
    s.remove_ensures(pos);
    s.index_of_first_ensures(e);
    assert(s.contains(e));
    let iof = s.index_of_first(e);
    assert(iof is Some);
    let i = iof->Some_0;
    if i < pos {
        assert(s[i] == e);
        assert(false);
    }
    if i > pos {
        assert(s[pos] != e);
        assert(false);
    }
    assert(s.remove_value(e) == s.remove(pos));
    let t = s.remove(pos);
    assert forall|x: usize| t.contains(x) implies s.contains(x) && x != e by {
        let k = choose|k: int| 0 <= k < t.len() && t[k] == x;
        if k < pos {
            assert(s[k] == x);
            if x == e {
                assert(s[k] == s[pos] && k != pos);
                assert(false);
            }
        } else {
            assert(s[k + 1] == x);
            if x == e {
                assert(s[k + 1] == s[pos] && k + 1 != pos);
                assert(false);
            }
        }
    }
    assert forall|x: usize| x != e && s.contains(x) implies t.contains(x) by {
        let j = choose|j: int| 0 <= j < s.len() && s[j] == x;
        if j < pos {
            assert(t[j] == x);
        } else {
            assert(j != pos);
            assert(t[j - 1] == x);
        }
    }
    assert forall|k1: int, k2: int| 0 <= k1 < t.len() && 0 <= k2 < t.len() && k1 != k2 implies t[k1]
        != t[k2] by {
        let m1 = if k1 < pos {
            k1
        } else {
            k1 + 1
        };
        let m2 = if k2 < pos {
            k2
        } else {
            k2 + 1
        };
        assert(t[k1] == s[m1]);
        assert(t[k2] == s[m2]);
        assert(m1 != m2);
    }
    assert(t.no_duplicates());
}

/// What remains of `s` after every value that `rem` mentions is struck out,
/// keeping the order of the survivors.
pub open spec fn drop_all(s: Seq<usize>, rem: Seq<usize>) -> Seq<usize>
    decreases s.len(),
{
    if s.len() == 0 {
        s
    } else if rem.contains(s[0]) {
        drop_all(s.drop_first(), rem)
    } else {
        seq![s[0]] + drop_all(s.drop_first(), rem)
    }
}

/// A pushed value is a member; pushing adds no other member.
proof fn lemma_push_contains(rem: Seq<usize>, e: usize, x: usize)
    ensures
        rem.push(e).contains(x) <==> (rem.contains(x) || x == e),
{
    if rem.push(e).contains(x) {
        let j = choose|j: int| 0 <= j < rem.push(e).len() && rem.push(e)[j] == x;
        if j < rem.len() {
            assert(rem[j] == x);
        }
    }
    if rem.contains(x) {
        let j = choose|j: int| 0 <= j < rem.len() && rem[j] == x;
        assert(rem.push(e)[j] == x);
    }
    if x == e {
        assert(rem.push(e)[rem.len() as int] == x);
    }
}

/// Striking out nothing changes nothing.
proof fn lemma_drop_all_nil(s: Seq<usize>)
    ensures
        drop_all(s, Seq::<usize>::empty()) == s,
    decreases s.len(),
{
    if s.len() > 0 {
        lemma_drop_all_nil(s.drop_first());
        assert(seq![s[0]] + s.drop_first() =~= s);
    }
}

/// Striking out a value that does not occur changes nothing.
proof fn lemma_drop_all_absent(s: Seq<usize>, rem: Seq<usize>, e: usize)
    requires
        !s.contains(e),
    ensures
        drop_all(s, rem.push(e)) == drop_all(s, rem),
    decreases s.len(),
{
    if s.len() > 0 {
        assert(s[0] != e);
        assert(!s.drop_first().contains(e)) by {
            if s.drop_first().contains(e) {
                let j = choose|j: int|
                    0 <= j < s.drop_first().len() && s.drop_first()[j] == e;
                assert(s[j + 1] == e);
            }
        }
        lemma_drop_all_absent(s.drop_first(), rem, e);
        lemma_push_contains(rem, e, s[0]);
    }
}

/// Removing the first occurrence of the head of a duplicate-free sequence
/// leaves its tail.
proof fn lemma_remove_value_head(s: Seq<usize>)
    requires
        s.len() > 0,
        s.no_duplicates(),
    ensures
        s.remove_value(s[0]) == s.drop_first(),
{
    s.index_of_first_ensures(s[0]);
    assert(s.contains(s[0]));
    let i = s.index_of_first(s[0])->Some_0;
    if i > 0 {
        assert(s[0] != s[0]);
    }
    assert(s.remove(0) =~= s.drop_first());
}

/// `remove_value` passes over a head that differs from the sought value.
proof fn lemma_remove_value_cons(h: usize, u: Seq<usize>, e: usize)
    requires
        h != e,
    ensures
        (seq![h] + u).remove_value(e) == seq![h] + u.remove_value(e),
{
    let s = seq![h] + u;
    s.index_of_first_ensures(e);
    u.index_of_first_ensures(e);
    if u.contains(e) {
        let i = u.index_of_first(e)->Some_0;
        assert(s[i + 1] == e);
        assert(s.contains(e));
        let si = s.index_of_first(e)->Some_0;
        if si < i + 1 {
            if si == 0 {
                assert(s[0] == h);
                assert(false);
            } else {
                assert(u[si - 1] == e);
                assert(false);
            }
        }
        if si > i + 1 {
            assert(s[i + 1] != e);
            assert(false);
        }
        assert(s.remove(i + 1) =~= seq![h] + u.remove(i));
    } else {
        assert(!s.contains(e)) by {
            if s.contains(e) {
                let j = choose|j: int| 0 <= j < s.len() && s[j] == e;
                if j > 0 {
                    assert(u[j - 1] == e);
                }
            }
        }
    }
}

/// Striking out one more value is the same as removing its one occurrence
/// from the survivors.
proof fn lemma_drop_all_push(s: Seq<usize>, rem: Seq<usize>, e: usize)
    requires
        s.no_duplicates(),
    ensures
        drop_all(s, rem.push(e)) == drop_all(s, rem).remove_value(e),
    decreases s.len(),
{
    if s.len() == 0 {
        assert(drop_all(s, rem) == s);
        s.index_of_first_ensures(e);
        if s.index_of_first(e) is Some {
            assert(s.contains(e));
            assert(false);
        }
    } else {
        let h = s[0];
        let t = s.drop_first();
        assert(t.no_duplicates()) by {
            assert forall|i: int, j: int|
                0 <= i < t.len() && 0 <= j < t.len() && i != j implies t[i] != t[j] by {
                assert(t[i] == s[i + 1]);
                assert(t[j] == s[j + 1]);
            }
        }
        assert(!t.contains(h)) by {
            if t.contains(h) {
                let j = choose|j: int| 0 <= j < t.len() && t[j] == h;
                assert(s[j + 1] == s[0] && j + 1 != 0);
            }
        }
        lemma_push_contains(rem, e, h);
        if rem.contains(h) {
            lemma_drop_all_push(t, rem, e);
        } else if h == e {
            lemma_drop_all_absent(t, rem, e);
            let d = seq![h] + drop_all(t, rem);
            d.index_of_first_ensures(e);
            assert(d.contains(e)) by {
                assert(d[0] == e);
            }
            let i = d.index_of_first(e)->Some_0;
            if i > 0 {
                assert(d[0] != e);
                assert(false);
            }
            assert(d.remove(0) =~= drop_all(t, rem));
            assert(drop_all(s, rem) == d);
        } else {
            lemma_drop_all_push(t, rem, e);
            lemma_remove_value_cons(h, drop_all(t, rem), e);
            assert(drop_all(s, rem.push(e)) == seq![h] + drop_all(t, rem.push(e)));
            assert(drop_all(s, rem) == seq![h] + drop_all(t, rem));
        }
    }
}

/// A copy of a list of indices.
fn copy_list(src: &Vec<usize>) -> (r: Vec<usize>)
    ensures
        r@ == src@,
{
    let mut r: Vec<usize> = Vec::new();
    let n = src.len();
    let mut k: usize = 0;
    while k < n
        invariant
            k <= n,
            n == src@.len(),
            r@ == src@.subrange(0, k as int),
        decreases n - k,
    {
        r.push(src[k]);
        proof {
            assert(r@ =~= src@.subrange(0, k as int + 1));
        }
        k = k + 1;
    }
    proof {
        assert(src@.subrange(0, n as int) =~= src@);
    }
    r
}

impl<V, E, F: Flow> Graph<V, E, F> {
    /// A vertex index that refers to a live (non-vacant, in-range) slot.
    pub open spec fn vert_live(self, i: int) -> bool {
        0 <= i < self.verts@.len() && self.verts@[i] is Some
    }

    /// An edge index that refers to a live (non-vacant, in-range) slot.
    pub open spec fn edge_live(self, i: int) -> bool {
        0 <= i < self.edges@.len() && self.edges@[i] is Some
    }

    /// The vertex stored at live index `i`.
    pub open spec fn vert_at(self, i: int) -> Vertex<V>
        recommends
            self.vert_live(i),
    {
        self.verts@[i]->Some_0
    }

    /// The edge stored at live index `i`.
    pub open spec fn edge_at(self, i: int) -> Edge<E>
        recommends
            self.edge_live(i),
    {
        self.edges@[i]->Some_0
    }

    /// The ordered incident-edge list of the vertex at live index `v`.
    pub open spec fn adj(self, v: int) -> Seq<usize>
        recommends
            self.vert_live(v),
    {
        self.vert_at(v).edges@
    }

    /// Live edge `e` has the vertex index `v` as one of its endpoints.
    pub open spec fn touches(self, e: int, v: int) -> bool
        recommends
            self.edge_live(e),
    {
        self.edge_at(e).spec_touches(v)
    }

    /// Vertices `a` and `b` are joined by some live edge.
    pub open spec fn linked(self, a: int, b: int) -> bool {
        exists|e: int| #[trigger] self.edge_live(e) && self.touches(e, a) && self.touches(e, b)
    }

    /// Vertex `b` can be reached from `a` by following live edges in either
    /// direction: the two lie in the same connected region.
    pub open spec fn reaches(self, a: int, b: int) -> bool {
        exists|p: Seq<int>|
            {
                &&& p.len() >= 1
                &&& p[0] == a
                &&& p.last() == b
                &&& forall|i: int| 0 <= i < p.len() ==> self.vert_live(#[trigger] p[i])
                &&& forall|i: int| 0 <= i < p.len() - 1 ==> self.linked(#[trigger] p[i], p[i + 1])
            }
    }

    /// Every live vertex records its own slot index.
    pub open spec fn verts_ok(self) -> bool {
        forall|i: int| #[trigger] self.vert_live(i) ==> self.vert_at(i).index == i
    }

    /// Every live edge records its own slot index and refers to two live
    /// endpoint vertices.
    pub open spec fn edges_ok(self) -> bool {
        forall|e: int| #[trigger] self.edge_live(e) ==> {
            &&& self.edge_at(e).index == e
            &&& self.vert_live(self.edge_at(e).verts.0 as int)
            &&& self.vert_live(self.edge_at(e).verts.1 as int)
        }
    }

    /// Every entry of an incident-edge list is a live edge that really
    /// touches that vertex.
    pub open spec fn adj_sound(self) -> bool {
        forall|v: int, k: int|
            #![trigger self.adj(v)[k]]
            self.vert_live(v) && 0 <= k < self.adj(v).len() ==> {
                &&& self.edge_live(self.adj(v)[k] as int)
                &&& self.touches(self.adj(v)[k] as int, v)
            }
    }

    /// Every live edge appears in the incident-edge list of both of its
    /// endpoints.
    pub open spec fn adj_complete(self) -> bool {
        forall|e: int| #[trigger] self.edge_live(e) ==> {
            &&& self.adj(self.edge_at(e).verts.0 as int).contains(e as usize)
            &&& self.adj(self.edge_at(e).verts.1 as int).contains(e as usize)
        }
    }

    /// No incident-edge list mentions the same edge twice.
    pub open spec fn adj_nodup(self) -> bool {
        forall|v: int| #[trigger] self.vert_live(v) ==> self.adj(v).no_duplicates()
    }

    /// The vertex free list holds exactly the vacant vertex slots, each once.
    pub open spec fn free_v_ok(self) -> bool {
        &&& forall|k: int|
            0 <= k < self.empty_v@.len() ==> (#[trigger] self.empty_v@[k] as int)
                < self.verts@.len() && !self.vert_live(self.empty_v@[k] as int)
        &&& forall|i: int|
            0 <= i < self.verts@.len() && !(#[trigger] self.verts@[i] is Some)
                ==> self.empty_v@.contains(i as usize)
        &&& self.empty_v@.no_duplicates()
    }

    /// The edge free list holds exactly the vacant edge slots, each once.
    pub open spec fn free_e_ok(self) -> bool {
        &&& forall|k: int|
            0 <= k < self.empty_e@.len() ==> (#[trigger] self.empty_e@[k] as int)
                < self.edges@.len() && !self.edge_live(self.empty_e@[k] as int)
        &&& forall|i: int|
            0 <= i < self.edges@.len() && !(#[trigger] self.edges@[i] is Some)
                ==> self.empty_e@.contains(i as usize)
        &&& self.empty_e@.no_duplicates()
    }

    /// Well-formedness of the whole structure: index consistency, the
    /// bidirectional vertex/edge incidence invariant, and free-list accuracy.
    /// Every operation requires this of its input and restores it before
    /// returning.
    pub open spec fn wf(self) -> bool {
        &&& self.verts_ok()
        &&& self.edges_ok()
        &&& self.adj_sound()
        &&& self.adj_complete()
        &&& self.adj_nodup()
        &&& self.free_v_ok()
        &&& self.free_e_ok()
    }

    /// An empty graph: no vertices, no edges, nothing on the free lists.
    pub fn new() -> (r: Self)
        ensures
            r.wf(),
            r.verts@.len() == 0,
            r.edges@.len() == 0,
            r.empty_v@.len() == 0,
            r.empty_e@.len() == 0,
    {
        Self {
            verts: Vec::new(),
            edges: Vec::new(),
            empty_v: Vec::new(),
            empty_e: Vec::new(),
            flow: PhantomData,
        }
    }

    /// The vertex at live index `i`.
    pub fn vert(&self, i: usize) -> (r: &Vertex<V>)
        requires
            self.vert_live(i as int),
        ensures
            *r == self.vert_at(i as int),
    {
        match self.verts[i].as_ref() {
            Some(v) => v,
            None => vstd::pervasive::unreached(),
        }
    }

    /// The edge at live index `i`.
    pub fn edge(&self, i: usize) -> (r: &Edge<E>)
        requires
            self.edge_live(i as int),
        ensures
            *r == self.edge_at(i as int),
    {
        match self.edges[i].as_ref() {
            Some(e) => e,
            None => vstd::pervasive::unreached(),
        }
    }

    /// The relation between the graph before and after `add_vert(val)`
    /// returned index `r`: the most recently freed slot is reused when one
    /// exists (LIFO), else a fresh slot is appended; nothing else changes.
    pub open spec fn vert_added(pre: Self, post: Self, val: V, r: usize) -> bool {
        &&& !pre.vert_live(r as int)
        &&& post.vert_live(r as int)
        &&& post.vert_at(r as int).index == r
        &&& post.vert_at(r as int).val == val
        &&& post.vert_at(r as int).edges@ == Seq::<usize>::empty()
        &&& if pre.empty_v@.len() > 0 {
            &&& r == pre.empty_v@.last()
            &&& post.verts@.len() == pre.verts@.len()
            &&& post.empty_v@ == pre.empty_v@.drop_last()
        } else {
            &&& r == pre.verts@.len()
            &&& post.verts@.len() == pre.verts@.len() + 1
            &&& post.empty_v@ == pre.empty_v@
        }
        &&& forall|j: int| 0 <= j < pre.verts@.len() && j != r ==> post.verts@[j] == pre.verts@[j]
        &&& post.edges@ == pre.edges@
        &&& post.empty_e@ == pre.empty_e@
    }

    /// Adds a vertex and returns its stable index: either the most recently
    /// freed vertex slot, or `self.verts.len()` if no slot is free.
    #[verifier::spinoff_prover]
    pub fn add_vert(&mut self, vert: V) -> (r: usize)
        requires
            old(self).wf(),
        ensures
            final(self).wf(),
            Self::vert_added(*old(self), *final(self), vert, r),
    {
        let index: usize = match self.empty_v.pop() {
            Some(i) => i,
            None => self.verts.len(),
        };
        let v = Vertex { index, val: vert, edges: Vec::new() };
        if index == self.verts.len() {
            self.verts.push(Some(v));
        } else {
            proof {
                assert(old(self).empty_v@.len() > 0);
                assert(!old(self).vert_live(index as int));
            }
            self.verts[index] = Some(v);
        }
        proof {
            let pre = *old(self);
            let post = *self;
            assert(post.empty_v@ =~= if pre.empty_v@.len() > 0 {
                pre.empty_v@.drop_last()
            } else {
                pre.empty_v@
            });
            assert forall|i: int| #[trigger] post.vert_live(i) implies post.vert_at(i).index
                == i by {
                if i != index {
                    assert(pre.vert_live(i));
                }
            }
            assert forall|e: int| #[trigger] post.edge_live(e) implies {
                &&& post.edge_at(e).index == e
                &&& post.vert_live(post.edge_at(e).verts.0 as int)
                &&& post.vert_live(post.edge_at(e).verts.1 as int)
            } by {
                assert(pre.edge_live(e));
                assert(pre.vert_live(pre.edge_at(e).verts.0 as int));
                assert(pre.vert_live(pre.edge_at(e).verts.1 as int));
            }
            assert forall|v2: int, k: int|
                post.vert_live(v2) && 0 <= k < post.adj(v2).len() implies {
                &&& post.edge_live(#[trigger] post.adj(v2)[k] as int)
                &&& post.touches(post.adj(v2)[k] as int, v2)
            } by {
                if v2 != index {
                    assert(pre.vert_live(v2));
                    assert(pre.adj(v2) == post.adj(v2));
                    assert(pre.edge_live(pre.adj(v2)[k] as int));
                }
            }
            assert forall|e: int| #[trigger] post.edge_live(e) implies {
                &&& post.adj(post.edge_at(e).verts.0 as int).contains(e as usize)
                &&& post.adj(post.edge_at(e).verts.1 as int).contains(e as usize)
            } by {
                assert(pre.edge_live(e));
                assert(pre.vert_live(pre.edge_at(e).verts.0 as int));
                assert(pre.vert_live(pre.edge_at(e).verts.1 as int));
            }
            assert forall|v2: int| #[trigger] post.vert_live(v2) implies post.adj(
                v2,
            ).no_duplicates() by {
                if v2 != index {
                    assert(pre.vert_live(v2));
                    assert(pre.adj(v2) == post.adj(v2));
                } else {
                    assert(post.adj(v2).len() == 0);
                }
            }
            assert forall|i: int|
                0 <= i < post.verts@.len() && !(#[trigger] post.verts@[i] is Some) implies post
                .empty_v@.contains(i as usize) by {
                assert(pre.empty_v@.contains(i as usize));
                if pre.empty_v@.len() > 0 {
                    lemma_drop_last_contains(pre.empty_v@, i as usize);
                }
            }
            assert forall|k: int| 0 <= k < post.empty_v@.len() implies (
            #[trigger] post.empty_v@[k] as int) < post.verts@.len() && !post.vert_live(
                post.empty_v@[k] as int,
            ) by {
                assert(pre.empty_v@[k] == post.empty_v@[k]);
                assert(pre.empty_v@.no_duplicates());
                if pre.empty_v@.len() > 0 {
                    assert(pre.empty_v@[k] != pre.empty_v@[pre.empty_v@.len() - 1]);
                }
            }
        }
        index
    }

    /// The position at which an entry lands in an incident-edge list of
    /// length `len`: the requested position clamped to the list, or the end
    /// when no position was requested.
    pub open spec fn clamp_pos(pos: Option<usize>, len: int) -> int {
        match pos {
            Some(p) => if (p as int) < len {
                p as int
            } else {
                len
            },
            None => len,
        }
    }

    /// The relation between the graph before and after
    /// `insert_edge(start, weight, end, f_pos, t_pos)` returned index `r`:
    /// the edge occupies the most recently freed edge slot (or a fresh one),
    /// and its index is spliced into each endpoint's incident list at the
    /// clamped position — once only for a self-loop.
    pub open spec fn edge_inserted(
        pre: Self,
        post: Self,
        start: usize,
        weight: E,
        end: usize,
        f_pos: Option<usize>,
        t_pos: Option<usize>,
        r: usize,
    ) -> bool {
        &&& !pre.edge_live(r as int)
        &&& post.edge_live(r as int)
        &&& post.vert_live(start as int)
        &&& post.vert_live(end as int)
        &&& post.edge_at(r as int) == (Edge { index: r, weight, verts: (start, end) })
        &&& if pre.empty_e@.len() > 0 {
            &&& r == pre.empty_e@.last()
            &&& post.edges@.len() == pre.edges@.len()
            &&& post.empty_e@ == pre.empty_e@.drop_last()
        } else {
            &&& r == pre.edges@.len()
            &&& post.edges@.len() == pre.edges@.len() + 1
            &&& post.empty_e@ == pre.empty_e@
        }
        &&& forall|j: int| 0 <= j < pre.edges@.len() && j != r ==> post.edges@[j] == pre.edges@[j]
        &&& post.verts@.len() == pre.verts@.len()
        &&& forall|v: int|
            0 <= v < pre.verts@.len() && v != start && v != end ==> post.verts@[v]
                == pre.verts@[v]
        &&& post.adj(start as int) == pre.adj(start as int).insert(
            Self::clamp_pos(f_pos, pre.adj(start as int).len() as int),
            r,
        )
        &&& post.vert_at(start as int).val == pre.vert_at(start as int).val
        &&& post.vert_at(start as int).index == pre.vert_at(start as int).index
        &&& start != end ==> {
            &&& post.adj(end as int) == pre.adj(end as int).insert(
                Self::clamp_pos(t_pos, pre.adj(end as int).len() as int),
                r,
            )
            &&& post.vert_at(end as int).val == pre.vert_at(end as int).val
            &&& post.vert_at(end as int).index == pre.vert_at(end as int).index
        }
        &&& post.empty_v@ == pre.empty_v@
    }

    /// Creates an edge from `start` to `end` and splices its index into each
    /// endpoint's incident-edge list at the given position (clamped to the
    /// list length), or at the end when no position is given. For a
    /// self-loop the index is inserted only once.
    #[verifier::spinoff_prover]
    pub fn insert_edge(
        &mut self,
        start: usize,
        weight: E,
        end: usize,
        f_pos: Option<usize>,
        t_pos: Option<usize>,
    ) -> (r: usize)
        requires
            old(self).wf(),
            old(self).vert_live(start as int),
            old(self).vert_live(end as int),
        ensures
            final(self).wf(),
            Self::edge_inserted(*old(self), *final(self), start, weight, end, f_pos, t_pos, r),
    {
        let index: usize = match self.empty_e.pop() {
            Some(i) => i,
            None => self.edges.len(),
        };
        let edge = Edge { index, weight, verts: (start, end) };
        if index == self.edges.len() {
            self.edges.push(Some(edge));
        } else {
            proof {
                assert(old(self).empty_e@.len() > 0);
                assert(!old(self).edge_live(index as int));
            }
            self.edges[index] = Some(edge);
        }
        let vr = self.vert_mut(start);
        let la = vr.edges.len();
        let at_s: usize = match f_pos {
            Some(p) => if p < la {
                p
            } else {
                la
            },
            None => la,
        };
        vr.edges.insert(at_s, index);
        if start != end {
            let vr2 = self.vert_mut(end);
            let lb = vr2.edges.len();
            let at_t: usize = match t_pos {
                Some(p) => if p < lb {
                    p
                } else {
                    lb
                },
                None => lb,
            };
            vr2.edges.insert(at_t, index);
        }
        proof {
            let pre = *old(self);
            let post = *self;
            assert(post.empty_e@ =~= if pre.empty_e@.len() > 0 {
                pre.empty_e@.drop_last()
            } else {
                pre.empty_e@
            });
            lemma_insert_elems(
                pre.adj(start as int),
                Self::clamp_pos(f_pos, pre.adj(start as int).len() as int),
                index,
            );
            if start != end {
                lemma_insert_elems(
                    pre.adj(end as int),
                    Self::clamp_pos(t_pos, pre.adj(end as int).len() as int),
                    index,
                );
            }
            // the new entry was not on any old list, since old lists hold
            // only live edges and slot `index` was vacant
            assert forall|v: int| pre.vert_live(v) implies !pre.adj(v).contains(index) by {
                if pre.adj(v).contains(index) {
                    let k = choose|k: int| 0 <= k < pre.adj(v).len() && pre.adj(v)[k] == index;
                    assert(pre.edge_live(pre.adj(v)[k] as int));
                }
            }
            assert forall|i: int| #[trigger] post.vert_live(i) implies post.vert_at(i).index
                == i by {
                assert(pre.vert_live(i));
            }
            assert forall|e: int| #[trigger] post.edge_live(e) implies {
                &&& post.edge_at(e).index == e
                &&& post.vert_live(post.edge_at(e).verts.0 as int)
                &&& post.vert_live(post.edge_at(e).verts.1 as int)
            } by {
                if e != index {
                    assert(pre.edge_live(e));
                    assert(pre.vert_live(pre.edge_at(e).verts.0 as int));
                    assert(pre.vert_live(pre.edge_at(e).verts.1 as int));
                }
            }
            assert forall|v2: int, k: int|
                post.vert_live(v2) && 0 <= k < post.adj(v2).len() implies {
                &&& post.edge_live(#[trigger] post.adj(v2)[k] as int)
                &&& post.touches(post.adj(v2)[k] as int, v2)
            } by {
                assert(pre.vert_live(v2));
                let x = post.adj(v2)[k];
                if v2 != start && v2 != end {
                    assert(post.adj(v2) == pre.adj(v2));
                    assert(pre.edge_live(pre.adj(v2)[k] as int));
                } else {
                    assert(post.adj(v2).contains(x));
                    if x == index {
                        assert(post.touches(index as int, v2));
                    } else {
                        assert(pre.adj(v2).contains(x));
                        let k2 = choose|k2: int|
                            0 <= k2 < pre.adj(v2).len() && pre.adj(v2)[k2] == x;
                        assert(pre.edge_live(pre.adj(v2)[k2] as int));
                        assert(pre.touches(x as int, v2));
                    }
                }
            }
            assert forall|e: int| #[trigger] post.edge_live(e) implies {
                &&& post.adj(post.edge_at(e).verts.0 as int).contains(e as usize)
                &&& post.adj(post.edge_at(e).verts.1 as int).contains(e as usize)
            } by {
                if e != index {
                    assert(pre.edge_live(e));
                    let a = pre.edge_at(e).verts.0 as int;
                    let b = pre.edge_at(e).verts.1 as int;
                    assert(pre.adj(a).contains(e as usize));
                    assert(pre.adj(b).contains(e as usize));
                    assert(post.adj(a).contains(e as usize));
                    assert(post.adj(b).contains(e as usize));
                } else {
                    assert(post.adj(start as int).contains(index));
                    assert(post.adj(end as int).contains(index));
                }
            }
            assert forall|v2: int| #[trigger] post.vert_live(v2) implies post.adj(
                v2,
            ).no_duplicates() by {
                assert(pre.vert_live(v2));
                if v2 != start && v2 != end {
                    assert(post.adj(v2) == pre.adj(v2));
                }
            }
            assert forall|i: int|
                0 <= i < post.edges@.len() && !(#[trigger] post.edges@[i] is Some) implies post
                .empty_e@.contains(i as usize) by {
                assert(pre.empty_e@.contains(i as usize));
                if pre.empty_e@.len() > 0 {
                    lemma_drop_last_contains(pre.empty_e@, i as usize);
                }
            }
            assert forall|k: int| 0 <= k < post.empty_e@.len() implies (
            #[trigger] post.empty_e@[k] as int) < post.edges@.len() && !post.edge_live(
                post.empty_e@[k] as int,
            ) by {
                assert(pre.empty_e@[k] == post.empty_e@[k]);
                assert(pre.empty_e@.no_duplicates());
                if pre.empty_e@.len() > 0 {
                    assert(pre.empty_e@[k] != pre.empty_e@[pre.empty_e@.len() - 1]);
                }
            }
        }
        index
    }

    /// Creates an edge from `start` to `end`, appended to the end of both
    /// endpoints' incident-edge lists.
    pub fn add_edge(&mut self, start: usize, weight: E, end: usize) -> (r: usize)
        requires
            old(self).wf(),
            old(self).vert_live(start as int),
            old(self).vert_live(end as int),
        ensures
            final(self).wf(),
            Self::edge_inserted(*old(self), *final(self), start, weight, end, None, None, r),
    {
        self.insert_edge(start, weight, end, None, None)
    }

    /// The relation between the graph before and after `rem_vert(index)`:
    /// the vertex slot is vacated and freed, every edge that touched it is
    /// removed, and every other vertex keeps its payload while its
    /// incident-edge list loses exactly the removed edges, order preserved.
    pub open spec fn vert_removed(pre: Self, post: Self, index: usize, removed: Seq<Edge<E>>) -> bool {
        &&& !post.vert_live(index as int)
        &&& post.verts@.len() == pre.verts@.len()
        &&& post.edges@.len() == pre.edges@.len()
        &&& removed.len() == pre.adj(index as int).len()
        &&& forall|j: int|
            0 <= j < removed.len() ==> removed[j] == pre.edge_at(
                #[trigger] pre.adj(index as int)[j] as int,
            )
        &&& forall|e: int|
            0 <= e < pre.edges@.len() ==> ((#[trigger] post.edge_live(e)) <==> (pre.edge_live(e)
                && !pre.touches(e, index as int)))
        &&& forall|e: int|
            pre.edge_live(e) && !pre.touches(e, index as int) ==> (#[trigger] post.edges@[e])
                == pre.edges@[e]
        &&& forall|w: int|
            0 <= w < pre.verts@.len() && w != index && pre.vert_live(w) ==> {
                &&& post.vert_live(w)
                &&& (#[trigger] post.vert_at(w)).index == pre.vert_at(w).index
                &&& post.vert_at(w).val == pre.vert_at(w).val
                &&& post.adj(w) == drop_all(pre.adj(w), pre.adj(index as int))
            }
        &&& forall|w: int|
            0 <= w < pre.verts@.len() && w != index && !pre.vert_live(w)
                ==> (#[trigger] post.verts@[w]) == pre.verts@[w]
        &&& post.empty_v@ == pre.empty_v@.push(index)
        &&& post.empty_e@ == pre.empty_e@ + pre.adj(index as int)
    }

    /// Removes a vertex, preserving all other indices: every edge touching
    /// it is removed as part of the same operation, so no dangling edge
    /// survives. Returns the removed vertex (with its incident-edge list
    /// as it stood) and the removed edges, in incident-list order.
    #[verifier::spinoff_prover]
    pub fn rem_vert(&mut self, index: usize) -> (r: (Vertex<V>, Vec<Edge<E>>))
        requires
            old(self).wf(),
            old(self).vert_live(index as int),
        ensures
            final(self).wf(),
            r.0.index == index,
            r.0.val == old(self).vert_at(index as int).val,
            r.0.edges@ == old(self).adj(index as int),
            Self::vert_removed(*old(self), *final(self), index, r.1@),
    {
        let ghost pre = *old(self);
        let elist = copy_list(&self.vert(index).edges);
        let mut removed: Vec<Edge<E>> = Vec::new();
        let n = elist.len();
        let mut k: usize = 0;
        proof {
            assert(elist@.subrange(0, 0) =~= Seq::<usize>::empty());
            assert(pre.adj(index as int).subrange(0, n as int) =~= pre.adj(index as int));
            assert forall|w: int|
                0 <= w < pre.verts@.len() && w != index && pre.vert_live(w) implies pre.adj(w)
                == drop_all(pre.adj(w), elist@.subrange(0, 0)) by {
                lemma_drop_all_nil(pre.adj(w));
            }
            assert(pre.empty_e@ + elist@.subrange(0, 0) =~= pre.empty_e@);
        }
        while k < n
            invariant
                self.wf(),
                k <= n,
                n == elist@.len(),
                elist@ == pre.adj(index as int),
                pre.wf(),
                pre.vert_live(index as int),
                self.verts@.len() == pre.verts@.len(),
                self.edges@.len() == pre.edges@.len(),
                self.vert_live(index as int),
                self.vert_at(index as int).index == index,
                self.vert_at(index as int).val == pre.vert_at(index as int).val,
                self.adj(index as int) == pre.adj(index as int).subrange(k as int, n as int),
                removed@.len() == k,
                forall|j: int|
                    0 <= j < k ==> removed@[j] == pre.edge_at(#[trigger] elist@[j] as int),
                forall|j: int|
                    k <= j < n ==> self.edge_live(#[trigger] elist@[j] as int)
                        && self.edges@[elist@[j] as int] == pre.edges@[elist@[j] as int],
                forall|j: int| 0 <= j < k ==> !self.edge_live(#[trigger] elist@[j] as int),
                forall|e: int|
                    0 <= e < pre.edges@.len() && !elist@.subrange(0, k as int).contains(e as usize)
                        ==> (#[trigger] self.edges@[e]) == pre.edges@[e],
                forall|w: int|
                    0 <= w < pre.verts@.len() && w != index && pre.vert_live(w) ==> {
                        &&& self.vert_live(w)
                        &&& (#[trigger] self.vert_at(w)).index == pre.vert_at(w).index
                        &&& self.vert_at(w).val == pre.vert_at(w).val
                        &&& self.adj(w) == drop_all(pre.adj(w), elist@.subrange(0, k as int))
                    },
                forall|w: int|
                    0 <= w < pre.verts@.len() && !pre.vert_live(w)
                        ==> (#[trigger] self.verts@[w]) == pre.verts@[w],
                self.empty_v@ == pre.empty_v@,
                self.empty_e@ == pre.empty_e@ + elist@.subrange(0, k as int),
            decreases n - k,
        {
            let e = elist[k];
            let ghost mid = *self;
            proof {
                assert(mid.adj(index as int)[0] == pre.adj(index as int)[k as int]);
                assert(pre.edge_live(e as int)) by {
                    assert(pre.adj(index as int)[k as int] == e);
                }
                assert(pre.touches(e as int, index as int)) by {
                    assert(pre.adj(index as int)[k as int] == e);
                }
                assert(mid.edge_live(e as int));
                assert(mid.edge_at(e as int) == pre.edge_at(e as int));
            }
            let edge = self.rem_edge(e);
            removed.push(edge);
            proof {
                let post = *self;
                assert(elist@.subrange(0, k as int + 1) =~= elist@.subrange(
                    0,
                    k as int,
                ).push(e));
                assert(pre.adj(index as int).no_duplicates());
                // elist entries are pairwise distinct, so e is not among the
                // already removed prefix and not among the remainder
                assert(!elist@.subrange(0, k as int).contains(e)) by {
                    if elist@.subrange(0, k as int).contains(e) {
                        let j = choose|j: int| 0 <= j < k && elist@.subrange(0, k as int)[j] == e;
                        assert(elist@[j] == elist@[k as int] && j != k);
                    }
                }
                // the vertex `index` list loses its head
                assert(mid.touches(e as int, index as int));
                assert(mid.adj(index as int).no_duplicates());
                lemma_remove_value_head(mid.adj(index as int));
                assert(mid.adj(index as int)[0] == e);
                assert(post.adj(index as int) == mid.adj(index as int).drop_first());
                assert(mid.adj(index as int).drop_first() =~= pre.adj(index as int).subrange(
                    k as int + 1,
                    n as int,
                ));
                // every other live vertex
                assert forall|w: int|
                    0 <= w < pre.verts@.len() && w != index && pre.vert_live(w) implies {
                    &&& post.vert_live(w)
                    &&& (#[trigger] post.vert_at(w)).index == pre.vert_at(w).index
                    &&& post.vert_at(w).val == pre.vert_at(w).val
                    &&& post.adj(w) == drop_all(pre.adj(w), elist@.subrange(0, k as int + 1))
                } by {
                    assert(mid.vert_live(w));
                    if mid.touches(e as int, w) {
                        assert(post.adj(w) == mid.adj(w).remove_value(e));
                        lemma_drop_all_push(pre.adj(w), elist@.subrange(0, k as int), e);
                    } else {
                        assert(post.verts@[w] == mid.verts@[w]);
                        assert(!pre.adj(w).contains(e)) by {
                            if pre.adj(w).contains(e) {
                                let j = choose|j: int|
                                    0 <= j < pre.adj(w).len() && pre.adj(w)[j] == e;
                                assert(pre.touches(pre.adj(w)[j] as int, w));
                                assert(mid.touches(e as int, w));
                            }
                        }
                        lemma_drop_all_absent(pre.adj(w), elist@.subrange(0, k as int), e);
                        lemma_drop_all_push(pre.adj(w), elist@.subrange(0, k as int), e);
                        assert(!drop_all(pre.adj(w), elist@.subrange(0, k as int)).contains(e))
                            by {
                            assert(post.adj(w) == mid.adj(w));
                            if mid.adj(w).contains(e) {
                                let j = choose|j: int|
                                    0 <= j < mid.adj(w).len() && mid.adj(w)[j] == e;
                                assert(mid.touches(mid.adj(w)[j] as int, w));
                            }
                        }
                        assert(drop_all(pre.adj(w), elist@.subrange(0, k as int)).remove_value(e)
                            == drop_all(pre.adj(w), elist@.subrange(0, k as int))) by {
                            let d = drop_all(pre.adj(w), elist@.subrange(0, k as int));
                            d.index_of_first_ensures(e);
                            if d.index_of_first(e) is Some {
                                assert(d.contains(e));
                            }
                        }
                    }
                }
                // edges outside the processed prefix are untouched
                assert forall|e2: int|
                    0 <= e2 < pre.edges@.len() && !elist@.subrange(0, k as int + 1).contains(
                        e2 as usize,
                    ) implies (#[trigger] post.edges@[e2]) == pre.edges@[e2] by {
                    assert(!elist@.subrange(0, k as int).contains(e2 as usize));
                    assert(e2 != e);
                }
                assert(post.empty_e@ =~= pre.empty_e@ + elist@.subrange(0, k as int + 1));
            }
            k = k + 1;
        }
        let ghost fin0 = *self;
        proof {
            assert(elist@.subrange(0, n as int) =~= elist@);
            assert(fin0.adj(index as int) =~= pre.adj(index as int).subrange(
                n as int,
                n as int,
            ));
            assert(fin0.adj(index as int).len() == 0);
            // no live edge still touches `index`
            assert forall|e: int| fin0.edge_live(e) implies !fin0.touches(e, index as int) by {
                assert(!elist@.contains(e as usize)) by {
                    if elist@.contains(e as usize) {
                        let j = choose|j: int| 0 <= j < n && elist@[j] == e as usize;
                        assert(!fin0.edge_live(elist@[j] as int));
                    }
                }
                assert(fin0.edges@[e] == pre.edges@[e]);
                assert(pre.edge_live(e));
                if fin0.touches(e, index as int) {
                    assert(pre.touches(e, index as int));
                    assert(pre.adj(index as int).contains(e as usize));
                }
            }
        }
        let slot = &mut self.verts[index];
        let v_opt = slot.take();
        let mut v = match v_opt {
            Some(v) => v,
            None => vstd::pervasive::unreached(),
        };
        self.empty_v.push(index);
        v.edges = elist;
        proof {
            let post = *self;
            assert forall|i: int| #[trigger] post.vert_live(i) implies post.vert_at(i).index
                == i by {
                assert(fin0.vert_live(i));
            }
            assert forall|e: int| #[trigger] post.edge_live(e) implies {
                &&& post.edge_at(e).index == e
                &&& post.vert_live(post.edge_at(e).verts.0 as int)
                &&& post.vert_live(post.edge_at(e).verts.1 as int)
            } by {
                assert(fin0.edge_live(e));
                assert(!fin0.touches(e, index as int));
                assert(fin0.vert_live(fin0.edge_at(e).verts.0 as int));
                assert(fin0.vert_live(fin0.edge_at(e).verts.1 as int));
            }
            assert forall|v2: int, k2: int|
                post.vert_live(v2) && 0 <= k2 < post.adj(v2).len() implies {
                &&& post.edge_live(#[trigger] post.adj(v2)[k2] as int)
                &&& post.touches(post.adj(v2)[k2] as int, v2)
            } by {
                assert(v2 != index);
                assert(fin0.vert_live(v2));
                assert(post.adj(v2) == fin0.adj(v2));
                assert(fin0.edge_live(fin0.adj(v2)[k2] as int));
            }
            assert forall|e: int| #[trigger] post.edge_live(e) implies {
                &&& post.adj(post.edge_at(e).verts.0 as int).contains(e as usize)
                &&& post.adj(post.edge_at(e).verts.1 as int).contains(e as usize)
            } by {
                assert(fin0.edge_live(e));
                assert(!fin0.touches(e, index as int));
                let va = fin0.edge_at(e).verts.0 as int;
                let vb = fin0.edge_at(e).verts.1 as int;
                assert(fin0.adj(va).contains(e as usize));
                assert(fin0.adj(vb).contains(e as usize));
                assert(va != index && vb != index);
            }
            assert forall|v2: int| #[trigger] post.vert_live(v2) implies post.adj(
                v2,
            ).no_duplicates() by {
                assert(fin0.vert_live(v2));
                assert(post.adj(v2) == fin0.adj(v2));
            }
            assert forall|i: int|
                0 <= i < post.verts@.len() && !(#[trigger] post.verts@[i] is Some) implies post
                .empty_v@.contains(i as usize) by {
                if i != index {
                    assert(fin0.empty_v@.contains(i as usize));
                    let k2 = choose|k2: int|
                        0 <= k2 < fin0.empty_v@.len() && fin0.empty_v@[k2] == i as usize;
                    assert(post.empty_v@[k2] == i as usize);
                } else {
                    assert(post.empty_v@.last() == index);
                }
            }
            assert(!fin0.empty_v@.contains(index)) by {
                if fin0.empty_v@.contains(index) {
                    let k2 = choose|k2: int|
                        0 <= k2 < fin0.empty_v@.len() && fin0.empty_v@[k2] == index;
                    assert(!fin0.vert_live(fin0.empty_v@[k2] as int));
                }
            }
            assert(post.empty_v@.no_duplicates());
            // the removal relation
            assert forall|e: int|
                0 <= e < pre.edges@.len() implies ((#[trigger] post.edge_live(e)) <==> (
            pre.edge_live(e) && !pre.touches(e, index as int))) by {
                if elist@.contains(e as usize) {
                    let j = choose|j: int| 0 <= j < n && elist@[j] == e as usize;
                    assert(!fin0.edge_live(elist@[j] as int));
                    assert(pre.touches(pre.adj(index as int)[j] as int, index as int));
                } else {
                    assert(fin0.edges@[e] == pre.edges@[e]);
                    if pre.edge_live(e) && pre.touches(e, index as int) {
                        assert(pre.adj(index as int).contains(e as usize));
                    }
                }
            }
            assert forall|e: int|
                pre.edge_live(e) && !pre.touches(e, index as int) implies (
            #[trigger] post.edges@[e]) == pre.edges@[e] by {
                assert(!elist@.contains(e as usize)) by {
                    if elist@.contains(e as usize) {
                        let j = choose|j: int| 0 <= j < n && elist@[j] == e as usize;
                        assert(pre.touches(pre.adj(index as int)[j] as int, index as int));
                    }
                }
                assert(fin0.edges@[e] == pre.edges@[e]);
            }
            assert forall|w: int|
                0 <= w < pre.verts@.len() && w != index && pre.vert_live(w) implies {
                &&& post.vert_live(w)
                &&& (#[trigger] post.vert_at(w)).index == pre.vert_at(w).index
                &&& post.vert_at(w).val == pre.vert_at(w).val
                &&& post.adj(w) == drop_all(pre.adj(w), pre.adj(index as int))
            } by {
                assert(fin0.vert_live(w));
                assert(post.verts@[w] == fin0.verts@[w]);
                assert(fin0.adj(w) == drop_all(pre.adj(w), elist@.subrange(0, n as int)));
                assert(elist@.subrange(0, n as int) == pre.adj(index as int));
            }
            assert forall|w: int|
                0 <= w < pre.verts@.len() && w != index && !pre.vert_live(w) implies (
            #[trigger] post.verts@[w]) == pre.verts@[w] by {
                assert(fin0.verts@[w] == pre.verts@[w]);
            }
            assert(post.empty_e@ == pre.empty_e@ + pre.adj(index as int)) by {
                assert(fin0.empty_e@ == pre.empty_e@ + elist@.subrange(0, n as int));
                assert(elist@.subrange(0, n as int) == pre.adj(index as int));
            }
            assert forall|j: int| 0 <= j < removed@.len() implies removed@[j] == pre.edge_at(
                #[trigger] pre.adj(index as int)[j] as int,
            ) by {
                assert(removed@[j] == pre.edge_at(elist@[j] as int));
            }
        }
        (v, removed)
    }

    /// The position of the first occurrence of edge index `e` in the
    /// incident-edge list of vertex `v`.
    fn adj_position(&self, v: usize, e: usize) -> (pos: usize)
        requires
            self.vert_live(v as int),
            self.adj(v as int).contains(e),
        ensures
            pos < self.adj(v as int).len(),
            self.adj(v as int)[pos as int] == e,
            forall|j: int| 0 <= j < pos ==> self.adj(v as int)[j] != e,
    {
        let list_len = self.vert(v).edges.len();
        let mut k: usize = 0;
        while k < list_len
            invariant
                self.vert_live(v as int),
                self.adj(v as int).contains(e),
                k <= list_len,
                list_len == self.adj(v as int).len(),
                forall|j: int| 0 <= j < k ==> self.adj(v as int)[j] != e,
            decreases list_len - k,
        {
            if self.vert(v).edges[k] == e {
                return k;
            }
            k = k + 1;
        }
        proof {
            let j = choose|j: int| 0 <= j < self.adj(v as int).len() && self.adj(v as int)[j] == e;
            assert(false);
        }
        vstd::pervasive::unreached()
    }

    /// The relation between the graph before and after `rem_edge(index)`:
    /// the edge slot is vacated and freed, and the index disappears from the
    /// incident-edge list of each endpoint; nothing else changes.
    pub open spec fn edge_removed(pre: Self, post: Self, index: usize) -> bool {
        &&& !post.edge_live(index as int)
        &&& post.edges@.len() == pre.edges@.len()
        &&& forall|j: int|
            0 <= j < pre.edges@.len() && j != index ==> post.edges@[j] == pre.edges@[j]
        &&& post.empty_e@ == pre.empty_e@.push(index)
        &&& post.empty_v@ == pre.empty_v@
        &&& post.verts@.len() == pre.verts@.len()
        &&& forall|v: int|
            0 <= v < pre.verts@.len() && !(pre.vert_live(v) && pre.touches(index as int, v))
                ==> (#[trigger] post.verts@[v]) == pre.verts@[v]
        &&& forall|v: int|
            pre.vert_live(v) ==> post.vert_live(v) && (#[trigger] post.vert_at(v)).index
                == pre.vert_at(v).index && post.vert_at(v).val == pre.vert_at(v).val
        &&& forall|v: int|
            pre.vert_live(v) && pre.touches(index as int, v) ==> (#[trigger] post.adj(v))
                == pre.adj(v).remove_value(index)
    }

    /// One live edge of the extracted part corresponds to the live edge `oe`
    /// of the original graph under the renumbering `table`.
    pub open spec fn edge_moved(pre: Self, part: Self, table: Seq<Option<usize>>, oe: int, s: int) -> bool {
        &&& part.edge_live(s)
        &&& 0 <= oe < pre.edges@.len()
        &&& pre.edge_live(oe)
        &&& table[pre.edge_at(oe).verts.0 as int] == Some(part.edge_at(s).verts.0)
        &&& table[pre.edge_at(oe).verts.1 as int] == Some(part.edge_at(s).verts.1)
        &&& part.edge_at(s).weight == pre.edge_at(oe).weight
    }

    /// The relation between a graph before an extraction, the remainder, the
    /// extracted part and the renumbering table: the vertices listed in
    /// `order` moved to the part (slot `t` holding the payload of
    /// `order[t]`), every edge among them moved with them, and everything
    /// else stayed as it was.
    pub open spec fn extracted(
        pre: Self,
        post: Self,
        part: Self,
        table: Seq<Option<usize>>,
        order: Seq<usize>,
    ) -> bool {
        &&& post.verts@.len() == pre.verts@.len()
        &&& post.edges@.len() == pre.edges@.len()
        &&& part.verts@.len() == order.len()
        &&& forall|t: int| 0 <= t < part.verts@.len() ==> #[trigger] part.vert_live(t)
        &&& forall|t: int|
            0 <= t < order.len() ==> (#[trigger] part.vert_at(t)).val == pre.vert_at(
                order[t] as int,
            ).val
        &&& forall|t: int| 0 <= t < order.len() ==> !post.vert_live((#[trigger] order[t]) as int)
        &&& forall|v: int|
            #![trigger table[v]]
            0 <= v < pre.verts@.len() && table[v] is None && !pre.vert_live(v)
                ==> post.verts@[v] == pre.verts@[v]
        &&& forall|v: int|
            #![trigger table[v]]
            0 <= v < pre.verts@.len() && table[v] is None && pre.vert_live(v) ==> {
                &&& post.vert_live(v)
                &&& post.vert_at(v).index == pre.vert_at(v).index
                &&& post.vert_at(v).val == pre.vert_at(v).val
                &&& post.adj(v) == pre.adj(v)
            }
        &&& forall|e: int|
            0 <= e < pre.edges@.len() ==> ((#[trigger] post.edge_live(e)) <==> (pre.edge_live(e)
                && table[pre.edge_at(e).verts.0 as int] is None))
        &&& forall|e: int|
            pre.edge_live(e) && table[pre.edge_at(e).verts.0 as int] is None
                ==> (#[trigger] post.edges@[e]) == pre.edges@[e]
        &&& forall|s: int|
            #[trigger] part.edge_live(s) ==> exists|oe: int| Self::edge_moved(pre, part, table, oe, s)
        &&& forall|oe: int|
            #[trigger] pre.edge_live(oe) && table[pre.edge_at(oe).verts.0 as int] is Some
                ==> exists|s: int| Self::edge_moved(pre, part, table, oe, s)
    }

    /// Moves the vertices listed in `order`, and every edge among them, out
    /// of this graph into a fresh one. `table` maps each listed old index to
    /// its position in `order`, which becomes its index in the new graph;
    /// the listed set must be closed under live edges.
    /// `order` lists each vertex the renumbering `table` maps, at the
    /// position `table` sends it to; the two describe the same set.
    pub open spec fn region_order(
        pre: Self,
        table: Seq<Option<usize>>,
        order: Seq<usize>,
    ) -> bool {
        &&& order.no_duplicates()
        &&& forall|t: int|
            0 <= t < order.len() ==> pre.vert_live((#[trigger] order[t]) as int)
                && table[order[t] as int] == Some(t as usize)
        &&& forall|v: int|
            0 <= v < table.len() ==> ((#[trigger] table[v]) is Some <==> order.contains(
                v as usize,
            ))
    }

    /// The relation between a graph before `isolate(index)`, the remainder,
    /// the extracted part, and the renumbering table: exactly the connected
    /// region of `index` moved out, `index` becoming the part's vertex 0.
    pub open spec fn isolated(
        pre: Self,
        post: Self,
        part: Self,
        table: Seq<Option<usize>>,
        index: usize,
    ) -> bool {
        &&& table.len() == pre.verts@.len()
        &&& table[index as int] == Some(0usize)
        &&& forall|v: int|
            0 <= v < pre.verts@.len() ==> ((#[trigger] table[v]) is Some <==> (pre.vert_live(v)
                && pre.reaches(index as int, v)))
        &&& exists|order: Seq<usize>|
            #![trigger Self::region_order(pre, table, order)]
            Self::region_order(pre, table, order) && Self::extracted(pre, post, part, table, order)
    }

    /// Moves vertices and edges into the lowest slots until no vacant slot
    /// is left, renumbering everything: live vertices keep their relative
    /// order, and the returned mapping sends each old vertex index to its
    /// new one. Indices are not preserved.
    #[verifier::spinoff_prover]
    #[verifier::loop_isolation(false)]
    #[verifier::rlimit(100)]
    pub fn compress(&mut self) -> (r: Converter)
        requires
            old(self).wf(),
        ensures
            final(self).wf(),
            r.table@.len() == old(self).verts@.len(),
            forall|v: int|
                0 <= v < old(self).verts@.len() ==> ((#[trigger] r.table@[v]) is Some
                    <==> old(self).vert_live(v)),
            forall|i: int|
                0 <= i < old(self).verts@.len() ==> (#[trigger] r.spec_conv(i)) == r.table@[i],
            forall|i: int|
                !(0 <= i < old(self).verts@.len()) ==> (#[trigger] r.spec_conv(i)) is None,
            forall|t: int|
                0 <= t < final(self).verts@.len() ==> (#[trigger] final(self).vert_live(t))
                    && (exists|v: int|
                    0 <= v < old(self).verts@.len() && (#[trigger] r.table@[v]) == Some(
                        t as usize,
                    )),
            final(self).empty_v@.len() == 0,
            final(self).empty_e@.len() == 0,
            forall|v: int|
                0 <= v < old(self).verts@.len() && (#[trigger] r.table@[v]) is Some ==> {
                    &&& (r.table@[v]->Some_0 as int) < final(self).verts@.len()
                    &&& final(self).vert_at(r.table@[v]->Some_0 as int).val == old(self).vert_at(
                        v,
                    ).val
                },
            forall|s: int|
                #[trigger] final(self).edge_live(s) ==> exists|oe: int|
                    Self::edge_moved(*old(self), *final(self), r.table@, oe, s),
            forall|oe: int|
                #[trigger] old(self).edge_live(oe) ==> exists|s: int|
                    Self::edge_moved(*old(self), *final(self), r.table@, oe, s),
            // the renumbering is one-to-one, onto the compacted arena, and
            // keeps the live vertices' relative order
            forall|v1: int, v2: int|
                #![trigger r.table@[v1], r.table@[v2]]
                0 <= v1 < old(self).verts@.len() && 0 <= v2 < old(self).verts@.len() && v1 != v2
                    && r.table@[v1] is Some && r.table@[v2] is Some ==> r.table@[v1]
                    != r.table@[v2],
            forall|v1: int, v2: int|
                #![trigger r.table@[v1], r.table@[v2]]
                0 <= v1 < v2 < old(self).verts@.len() && r.table@[v1] is Some && r.table@[v2]
                    is Some ==> (r.table@[v1]->Some_0 as int) < (r.table@[v2]->Some_0 as int),
    {
        let ghost g = *old(self);
        let n_v = self.verts.len();
        let mut order: Vec<usize> = Vec::new();
        let mut table: Vec<Option<usize>> = Vec::new();
        let mut i: usize = 0;
        while i < n_v
            invariant
                i <= n_v,
                table@.len() == i,
                forall|v: int|
                    0 <= v < i ==> ((#[trigger] table@[v]) is Some <==> g.vert_live(v)),
                forall|v: int|
                    0 <= v < i && #[trigger] table@[v] is Some ==> (table@[v]->Some_0 as int)
                        < order@.len() && order@[table@[v]->Some_0 as int] == v,
                forall|t: int|
                    0 <= t < order@.len() ==> ((#[trigger] order@[t]) as int) < i && g.vert_live(
                        order@[t] as int,
                    ) && table@[order@[t] as int] == Some(t as usize),
                forall|t1: int, t2: int|
                    0 <= t1 < t2 < order@.len() ==> order@[t1] < order@[t2],
            decreases n_v - i,
        {
            if self.verts[i].is_some() {
                proof {
                    assert(g.vert_live(i as int));
                }
                table.push(Some(order.len()));
                order.push(i);
                proof {
                    assert(order@[order@.len() - 1] == i);
                    assert forall|t1: int, t2: int|
                        0 <= t1 < t2 < order@.len() implies order@[t1] < order@[t2] by {
                        if t2 == order@.len() - 1 {
                            assert((order@[t1] as int) < i);
                        }
                    }
                }
            } else {
                table.push(None);
            }
            i = i + 1;
        }
        proof {
            assert(order@.no_duplicates()) by {
                assert forall|t1: int, t2: int|
                    0 <= t1 < order@.len() && 0 <= t2 < order@.len() && t1 != t2 implies order@[t1]
                    != order@[t2] by {
                    if t1 < t2 {
                        assert(order@[t1] < order@[t2]);
                    } else {
                        assert(order@[t2] < order@[t1]);
                    }
                }
            }
            assert forall|v: int|
                0 <= v < table@.len() implies ((#[trigger] table@[v]) is Some <==> order@.contains(
                v as usize,
            )) by {
                if table@[v] is Some {
                    assert(order@[table@[v]->Some_0 as int] == v);
                }
                if order@.contains(v as usize) {
                    let t = choose|t: int| 0 <= t < order@.len() && order@[t] == v as usize;
                    assert(table@[order@[t] as int] == Some(t as usize));
                }
            }
            assert forall|e: int| #[trigger] g.edge_live(e) implies ((table@[g.edge_at(
                e,
            ).verts.0 as int] is Some) <==> (table@[g.edge_at(e).verts.1 as int] is Some)) by {
                assert(g.vert_live(g.edge_at(e).verts.0 as int));
                assert(g.vert_live(g.edge_at(e).verts.1 as int));
            }
        }
        let mut part = self.extract(&order, &table);
        core::mem::swap(self, &mut part);
        proof {
            assert forall|oe: int| #[trigger] g.edge_live(oe) implies exists|s: int|
                Self::edge_moved(g, *self, table@, oe, s) by {
                assert(table@[g.edge_at(oe).verts.0 as int] is Some);
            }
            assert forall|v1: int, v2: int|
                #![trigger table@[v1], table@[v2]]
                0 <= v1 < g.verts@.len() && 0 <= v2 < g.verts@.len() && v1 != v2 && table@[v1]
                    is Some && table@[v2] is Some implies table@[v1] != table@[v2] by {
                assert(order@[table@[v1]->Some_0 as int] == v1);
                assert(order@[table@[v2]->Some_0 as int] == v2);
            }
            assert(self.verts@.len() == order@.len());
            assert forall|t: int| 0 <= t < self.verts@.len() implies (#[trigger] self.vert_live(
                t,
            )) && (exists|v: int|
                0 <= v < g.verts@.len() && (#[trigger] table@[v]) == Some(t as usize)) by {
                assert((order@[t] as int) < g.verts@.len());
                assert(table@[order@[t] as int] == Some(t as usize));
            }
            assert forall|v1: int, v2: int|
                #![trigger table@[v1], table@[v2]]
                0 <= v1 < v2 < g.verts@.len() && table@[v1] is Some && table@[v2]
                    is Some implies (table@[v1]->Some_0 as int) < (table@[v2]->Some_0 as int) by {
                let t1 = table@[v1]->Some_0 as int;
                let t2 = table@[v2]->Some_0 as int;
                assert(order@[t1] == v1);
                assert(order@[t2] == v2);
                if t1 == t2 {
                    assert(v1 == v2);
                }
                if t2 < t1 {
                    assert(order@[t2] < order@[t1]);
                }
            }
        }
        Converter { table }
    }

    /// One step of `split`: adding a freshly isolated region to the list of
    /// parts keeps every per-part bookkeeping fact of the loop.
    #[verifier::spinoff_prover]
    #[verifier::rlimit(100)]
    proof fn lemma_split_step(
        whole: Self,
        g0: Self,
        g: Self,
        part: Self,
        conv: Converter,
        s: usize,
        r0: Seq<(Self, Converter)>,
        r1: Seq<(Self, Converter)>,
    )
        requires
            whole.verts@.len() == g0.verts@.len(),
            Self::isolated(g0, g, part, conv.table@, s),
            part.wf(),
            g.wf(),
            r1 == r0.push((part, conv)),
            forall|i: int|
                0 <= i < g0.verts@.len() ==> (#[trigger] conv.spec_conv(i)) == conv.table@[i],
            forall|i: int|
                !(0 <= i < g0.verts@.len()) ==> (#[trigger] conv.spec_conv(i)) is None,
            forall|v: int|
                #[trigger] whole.vert_live(v) ==> (g0.vert_live(v) <==> (forall|k: int|
                    0 <= k < r0.len() ==> (#[trigger] r0[k].1.table@[v]) is None)),
            forall|v: int|
                0 <= v < whole.verts@.len() && !whole.vert_live(v) ==> !g0.vert_live(v) && (forall|
                k: int|
                    0 <= k < r0.len() ==> (#[trigger] r0[k].1.table@[v]) is None),
            forall|v: int, k1: int, k2: int|
                #![trigger r0[k1].1.table@[v], r0[k2].1.table@[v]]
                0 <= k1 < r0.len() && 0 <= k2 < r0.len() && k1 != k2 && 0 <= v
                    < whole.verts@.len() && r0[k1].1.table@[v] is Some ==> r0[k2].1.table@[v]
                    is None,
            forall|v: int|
                #[trigger] g0.vert_live(v) ==> whole.vert_live(v) && g0.vert_at(v).val
                    == whole.vert_at(v).val,
            forall|k: int, v: int|
                #![trigger r0[k].1.table@[v]]
                0 <= k < r0.len() && 0 <= v < whole.verts@.len() && r0[k].1.table@[v] is Some
                    ==> {
                    &&& whole.vert_live(v)
                    &&& (r0[k].1.table@[v]->Some_0 as int) < r0[k].0.verts@.len()
                    &&& r0[k].0.vert_live(r0[k].1.table@[v]->Some_0 as int)
                    &&& r0[k].0.vert_at(r0[k].1.table@[v]->Some_0 as int).val == whole.vert_at(
                        v,
                    ).val
                },
        ensures
            forall|v: int|
                #[trigger] whole.vert_live(v) ==> (g.vert_live(v) <==> (forall|k: int|
                    0 <= k < r1.len() ==> (#[trigger] r1[k].1.table@[v]) is None)),
            forall|v: int|
                0 <= v < whole.verts@.len() && !whole.vert_live(v) ==> !g.vert_live(v) && (forall|
                k: int|
                    0 <= k < r1.len() ==> (#[trigger] r1[k].1.table@[v]) is None),
            forall|v: int, k1: int, k2: int|
                #![trigger r1[k1].1.table@[v], r1[k2].1.table@[v]]
                0 <= k1 < r1.len() && 0 <= k2 < r1.len() && k1 != k2 && 0 <= v
                    < whole.verts@.len() && r1[k1].1.table@[v] is Some ==> r1[k2].1.table@[v]
                    is None,
            forall|v: int|
                #[trigger] g.vert_live(v) ==> whole.vert_live(v) && g.vert_at(v).val
                    == whole.vert_at(v).val,
            forall|k: int, v: int|
                #![trigger r1[k].1.table@[v]]
                0 <= k < r1.len() && 0 <= v < whole.verts@.len() && r1[k].1.table@[v] is Some
                    ==> {
                    &&& whole.vert_live(v)
                    &&& (r1[k].1.table@[v]->Some_0 as int) < r1[k].0.verts@.len()
                    &&& r1[k].0.vert_live(r1[k].1.table@[v]->Some_0 as int)
                    &&& r1[k].0.vert_at(r1[k].1.table@[v]->Some_0 as int).val == whole.vert_at(
                        v,
                    ).val
                },
    {
        let table = conv.table@;
        let order = choose|order: Seq<usize>|
            #![trigger Self::region_order(g0, table, order)]
            Self::region_order(g0, table, order) && Self::extracted(g0, g, part, table, order);
        assert(Self::extracted(g0, g, part, table, order));
        assert(r1[r1.len() - 1] == (part, conv));
        assert forall|k: int| 0 <= k < r0.len() implies (#[trigger] r1[k]) == r0[k] by {}
        vstd::std_specs::vec::axiom_spec_len(&whole.verts);
        vstd::std_specs::vec::axiom_spec_len(&part.verts);
        assert forall|v: int|
            0 <= v < g0.verts@.len() && (#[trigger] table[v]) is Some implies {
            &&& g0.vert_live(v)
            &&& !g.vert_live(v)
            &&& (table[v]->Some_0 as int) < part.verts@.len()
            &&& part.vert_live(table[v]->Some_0 as int)
            &&& part.vert_at(table[v]->Some_0 as int).val == g0.vert_at(v).val
        } by {
            assert(g0.vert_live(v));
            assert(order.contains(v as usize));
            let t = choose|t: int| 0 <= t < order.len() && order[t] == v as usize;
            assert(table[order[t] as int] == Some(t as usize));
            assert((v as usize) as int == v);
            assert(order[t] as int == v);
            assert(table[v] == Some(t as usize));
            assert(part.verts@.len() == order.len());
            assert(part.vert_live(t));
            assert(part.vert_at(t).val == g0.vert_at(order[t] as int).val);
            assert(t < part.verts@.len());
            assert((t as usize) as int == t);
            assert(table[v]->Some_0 as int == t);
            assert(!g.vert_live(order[t] as int));
        }
        assert forall|v: int|
            #[trigger] whole.vert_live(v) implies (g.vert_live(v) <==> (forall|k: int|
            0 <= k < r1.len() ==> (#[trigger] r1[k].1.table@[v]) is None)) by {
            if table[v] is Some {
                assert(g0.vert_live(v));
                assert(!g.vert_live(v));
                assert(r1[r1.len() - 1].1.table@[v] is Some);
            } else {
                if g0.vert_live(v) {
                    assert(g.vert_at(v) == g.vert_at(v));
                    assert(g.vert_live(v));
                } else {
                    assert(!g0.vert_live(v));
                    let k = choose|k: int|
                        0 <= k < r0.len() && !((#[trigger] r0[k].1.table@[v]) is None);
                    assert(r1[k].1.table@[v] is Some);
                    assert(!g.vert_live(v)) by {
                        if g.vert_live(v) {
                            assert(g.verts@[v] == g0.verts@[v]);
                        }
                    }
                }
            }
        }
        assert forall|v: int|
            0 <= v < whole.verts@.len() && !whole.vert_live(v) implies !g.vert_live(v) && (forall|
            k: int|
            0 <= k < r1.len() ==> (#[trigger] r1[k].1.table@[v]) is None) by {
            assert(!g0.vert_live(v));
            if table[v] is Some {
                assert(g0.vert_live(v));
            }
            assert(!g.vert_live(v)) by {
                if g.vert_live(v) {
                    assert(g.verts@[v] == g0.verts@[v]);
                }
            }
        }
        assert forall|v: int, k1: int, k2: int|
            #![trigger r1[k1].1.table@[v], r1[k2].1.table@[v]]
            0 <= k1 < r1.len() && 0 <= k2 < r1.len() && k1 != k2 && 0 <= v < whole.verts@.len()
                && r1[k1].1.table@[v] is Some implies r1[k2].1.table@[v] is None by {
            if k1 == r1.len() - 1 {
                assert(table[v] is Some);
                assert(g0.vert_live(v));
                assert(whole.vert_live(v));
                assert(r0[k2].1.table@[v] is None);
            } else if k2 == r1.len() - 1 {
                if table[v] is Some {
                    assert(g0.vert_live(v));
                    assert(whole.vert_live(v));
                    assert(r0[k1].1.table@[v] is None);
                }
            }
        }
        assert forall|v: int| #[trigger] g.vert_live(v) implies whole.vert_live(v)
            && g.vert_at(v).val == whole.vert_at(v).val by {
            assert(0 <= v < g0.verts@.len());
            if table[v] is Some {
                assert(!g.vert_live(v));
            }
            if !g0.vert_live(v) {
                assert(g.verts@[v] == g0.verts@[v]);
            }
            assert(g0.vert_live(v));
            assert(g.vert_at(v).val == g0.vert_at(v).val);
        }
        assert forall|k: int, v: int|
            #![trigger r1[k].1.table@[v]]
            0 <= k < r1.len() && 0 <= v < whole.verts@.len() && r1[k].1.table@[v]
                is Some implies {
            &&& whole.vert_live(v)
            &&& (r1[k].1.table@[v]->Some_0 as int) < r1[k].0.verts@.len()
            &&& r1[k].0.vert_live(r1[k].1.table@[v]->Some_0 as int)
            &&& r1[k].0.vert_at(r1[k].1.table@[v]->Some_0 as int).val == whole.vert_at(v).val
        } by {
            if k == r1.len() - 1 {
                assert(table[v] is Some);
                assert(g0.vert_live(v));
                assert(part.vert_live(table[v]->Some_0 as int));
                assert(part.vert_at(table[v]->Some_0 as int).val == g0.vert_at(v).val);
                assert(g0.vert_at(v).val == whole.vert_at(v).val);
            }
        }
    }

    /// Splits a graph whose live vertices fall into several disconnected
    /// regions into one graph per region, each with the mapping from the
    /// old indices to its own new ones: every live vertex lands in exactly
    /// one part, at the index its part's mapping gives, with its payload.
    #[verifier::spinoff_prover]
    #[verifier::loop_isolation(false)]
    #[verifier::rlimit(100)]
    pub fn split(self) -> (r: Vec<(Self, Converter)>)
        requires
            self.wf(),
        ensures
            forall|k: int|
                0 <= k < r@.len() ==> {
                    &&& (#[trigger] r@[k].0).wf()
                    &&& r@[k].0.vert_live(0)
                    &&& r@[k].1.table@.len() == self.verts@.len()
                },
            forall|v: int|
                #[trigger] self.vert_live(v) ==> exists|k: int|
                    0 <= k < r@.len() && (#[trigger] r@[k].1.spec_conv(v)) is Some,
            forall|v: int, k1: int, k2: int|
                #![trigger r@[k1].1.spec_conv(v), r@[k2].1.spec_conv(v)]
                0 <= k1 < r@.len() && 0 <= k2 < r@.len() && k1 != k2 && r@[k1].1.spec_conv(v)
                    is Some ==> r@[k2].1.spec_conv(v) is None,
            forall|k: int, v: int|
                #![trigger r@[k].1.table@[v]]
                0 <= k < r@.len() && 0 <= v < self.verts@.len() && r@[k].1.table@[v] is Some ==> {
                    &&& self.vert_live(v)
                    &&& (r@[k].1.table@[v]->Some_0 as int) < r@[k].0.verts@.len()
                    &&& r@[k].0.vert_live(r@[k].1.table@[v]->Some_0 as int)
                    &&& r@[k].0.vert_at(r@[k].1.table@[v]->Some_0 as int).val == self.vert_at(
                        v,
                    ).val
                },
    {
        let ghost whole = self;
        let mut g = self;
        let mut r: Vec<(Self, Converter)> = Vec::new();
        let n_v = g.verts.len();
        let mut s: usize = 0;
        while s < n_v
            invariant
                g.wf(),
                s <= n_v,
                n_v == g.verts@.len(),
                n_v == whole.verts@.len(),
                forall|k: int|
                    0 <= k < r@.len() ==> {
                        &&& (#[trigger] r@[k].0).wf()
                        &&& r@[k].0.vert_live(0)
                        &&& r@[k].1.table@.len() == whole.verts@.len()
                    },
                forall|k: int, v: int|
                    #![trigger r@[k].1.spec_conv(v)]
                    0 <= k < r@.len() && !(0 <= v < whole.verts@.len()) ==> r@[k].1.spec_conv(v)
                        is None,
                forall|k: int, v: int|
                    #![trigger r@[k].1.spec_conv(v)]
                    0 <= k < r@.len() && 0 <= v < whole.verts@.len() ==> r@[k].1.spec_conv(v)
                        == r@[k].1.table@[v],
                // a vertex is still live in the remainder exactly when no
                // part has claimed it yet
                forall|v: int|
                    #[trigger] whole.vert_live(v) ==> (g.vert_live(v) <==> (forall|k: int|
                        0 <= k < r@.len() ==> (#[trigger] r@[k].1.table@[v]) is None)),
                forall|v: int|
                    0 <= v < n_v && !whole.vert_live(v) ==> !g.vert_live(v) && (forall|k: int|
                        0 <= k < r@.len() ==> (#[trigger] r@[k].1.table@[v]) is None),
                forall|v: int, k1: int, k2: int|
                    #![trigger r@[k1].1.table@[v], r@[k2].1.table@[v]]
                    0 <= k1 < r@.len() && 0 <= k2 < r@.len() && k1 != k2 && 0 <= v
                        < whole.verts@.len() && r@[k1].1.table@[v] is Some
                        ==> r@[k2].1.table@[v] is None,
                forall|v: int|
                    #[trigger] g.vert_live(v) ==> whole.vert_live(v) && g.vert_at(v).val
                        == whole.vert_at(v).val,
                forall|v: int| 0 <= v < s ==> !g.vert_live(v),
                forall|k: int, v: int|
                    #![trigger r@[k].1.table@[v]]
                    0 <= k < r@.len() && 0 <= v < whole.verts@.len() && r@[k].1.table@[v]
                        is Some ==> {
                        &&& whole.vert_live(v)
                        &&& (r@[k].1.table@[v]->Some_0 as int) < r@[k].0.verts@.len()
                        &&& r@[k].0.vert_live(r@[k].1.table@[v]->Some_0 as int)
                        &&& r@[k].0.vert_at(r@[k].1.table@[v]->Some_0 as int).val
                            == whole.vert_at(v).val
                    },
            decreases n_v - s,
        {
            let live = g.verts[s].is_some();
            if live {
                let ghost g0 = g;
                let ghost r0 = r@;
                let (part, conv) = g.isolate(s);
                proof {
                    assert(conv.table@[s as int] == Some(0usize));
                    let order = choose|order: Seq<usize>|
                        #![trigger Self::region_order(g0, conv.table@, order)]
                        Self::region_order(g0, conv.table@, order) && Self::extracted(
                            g0,
                            g,
                            part,
                            conv.table@,
                            order,
                        );
                    assert(g.verts@.len() == g0.verts@.len());
                    assert(Self::region_order(g0, conv.table@, order));
                    assert(conv.table@.len() == g0.verts@.len());
                    assert((s as int) < conv.table@.len());
                    assert(conv.table@[s as int] is Some);
                    assert(order.contains(s));
                    assert(order.len() > 0) by {
                        let t = choose|t: int| 0 <= t < order.len() && order[t] == s;
                        assert(0 <= t < order.len());
                    }
                    assert(part.verts@.len() == order.len());
                    assert(part.vert_live(0));
                }
                r.push((part, conv));
                proof {
                    assert(r@ == r0.push((part, conv)));
                    assert forall|k: int| 0 <= k < r0.len() implies (#[trigger] r@[k]) == r0[k] by {}
                    Self::lemma_split_step(whole, g0, g, part, conv, s, r0, r@);
                    assert forall|v: int| 0 <= v < s + 1 implies !g.vert_live(v) by {
                        if v < s {
                            assert(!g0.vert_live(v));
                            if g.vert_live(v) {
                                assert(whole.vert_live(v));
                                assert forall|k: int|
                                    0 <= k < r0.len() implies (#[trigger] r0[k].1.table@[v])
                                    is None by {
                                    assert(r@[k].1.table@[v] is None);
                                }
                                assert(g0.vert_live(v));
                            }
                        } else {
                            assert(g0.vert_live(s as int));
                            assert(whole.vert_live(s as int));
                            if g.vert_live(s as int) {
                                assert(r@[r@.len() - 1].1.table@[s as int] is None);
                                assert(conv.table@[s as int] == Some(0usize));
                            }
                        }
                    }
                }
            } else {
                proof {
                    assert(!g.vert_live(s as int));
                }
            }
            s = s + 1;
        }
        proof {
            assert forall|v: int| #[trigger] whole.vert_live(v) implies exists|k: int|
                0 <= k < r@.len() && (#[trigger] r@[k].1.spec_conv(v)) is Some by {
                assert(0 <= v < n_v);
                assert(!g.vert_live(v));
                if forall|k: int| 0 <= k < r@.len() ==> (#[trigger] r@[k].1.table@[v]) is None {
                    assert(g.vert_live(v));
                }
                let k = choose|k: int|
                    0 <= k < r@.len() && !((#[trigger] r@[k].1.table@[v]) is None);
                assert(r@[k].1.spec_conv(v) == r@[k].1.table@[v]);
                assert(r@[k].1.spec_conv(v) is Some);
            }
            assert forall|v: int, k1: int, k2: int|
                #![trigger r@[k1].1.spec_conv(v), r@[k2].1.spec_conv(v)]
                0 <= k1 < r@.len() && 0 <= k2 < r@.len() && k1 != k2 && r@[k1].1.spec_conv(v)
                    is Some implies r@[k2].1.spec_conv(v) is None by {
                if 0 <= v < whole.verts@.len() {
                    assert(r@[k1].1.spec_conv(v) == r@[k1].1.table@[v]);
                    assert(r@[k2].1.spec_conv(v) == r@[k2].1.table@[v]);
                }
            }
        }
        r
    }

    /// Computes the connected region of `index`: the list of its vertices
    /// in discovery order (`index` first) and the renumbering table that
    /// sends each of them to its position in that list.
    #[verifier::spinoff_prover]
    #[verifier::loop_isolation(false)]
    #[verifier::rlimit(100)]
    fn mark_region(&self, index: usize) -> (r: (Vec<usize>, Vec<Option<usize>>))
        requires
            self.wf(),
            self.vert_live(index as int),
        ensures
            r.1@.len() == self.verts@.len(),
            r.1@[index as int] == Some(0usize),
            Self::region_order(*self, r.1@, r.0@),
            forall|v: int|
                0 <= v < self.verts@.len() ==> ((#[trigger] r.1@[v]) is Some <==> (
                self.vert_live(v) && self.reaches(index as int, v))),
            forall|e: int|
                #[trigger] self.edge_live(e) ==> ((r.1@[self.edge_at(e).verts.0 as int]
                    is Some) <==> (r.1@[self.edge_at(e).verts.1 as int] is Some)),
    {
        let ghost g = *self;
        let n_v = self.verts.len();
        let mut visited: Vec<bool> = Vec::new();
        let mut table: Vec<Option<usize>> = Vec::new();
        while visited.len() < n_v
            invariant
                visited@.len() == table@.len(),
                visited@.len() <= n_v,
                forall|i: int| 0 <= i < visited@.len() ==> !(#[trigger] visited@[i]),
                forall|i: int| 0 <= i < table@.len() ==> (#[trigger] table@[i]) is None,
            decreases n_v - visited@.len(),
        {
            visited.push(false);
            table.push(None);
        }
        let mut order: Vec<usize> = Vec::new();
        let mut queue: Vec<usize> = Vec::new();
        visited[index] = true;
        table[index] = Some(0);
        order.push(index);
        queue.push(index);
        proof {
            lemma_reach_self(g, index as int);
            assert(queue@[0] == index);
            assert(queue@.contains(index));
        }
        while queue.len() > 0
            invariant
                visited@.len() == n_v,
                table@.len() == n_v,
                visited@[index as int],
                forall|i: int|
                    0 <= i < n_v ==> ((#[trigger] table@[i]) is Some <==> visited@[i]),
                forall|v: int|
                    0 <= v < n_v && #[trigger] visited@[v] ==> g.vert_live(v) && g.reaches(
                        index as int,
                        v,
                    ),
                forall|v: int|
                    0 <= v < n_v && #[trigger] visited@[v] ==> table@[v] is Some && (
                    table@[v]->Some_0 as int) < order@.len() && order@[table@[v]->Some_0 as int]
                        == v,
                table@[index as int] == Some(0usize),
                forall|t: int|
                    0 <= t < order@.len() ==> ((#[trigger] order@[t]) as int) < n_v
                        && visited@[order@[t] as int] && table@[order@[t] as int] == Some(
                        t as usize,
                    ),
                forall|k: int|
                    0 <= k < queue@.len() ==> (#[trigger] queue@[k] as int) < n_v
                        && visited@[queue@[k] as int],
                queue@.no_duplicates(),
                forall|v: int, k: int|
                    #![trigger g.adj(v)[k]]
                    0 <= v < n_v && visited@[v] && !queue@.contains(v as usize) && 0 <= k < g.adj(
                        v,
                    ).len() ==> {
                        &&& visited@[g.edge_at(g.adj(v)[k] as int).verts.0 as int]
                        &&& visited@[g.edge_at(g.adj(v)[k] as int).verts.1 as int]
                    },
            decreases count_unmarked(visited@), queue@.len(),
        {
            let ghost count0 = count_unmarked(visited@);
            let ghost q0 = queue@.len();
            let ghost qold = queue@;
            let v = match queue.pop() {
                Some(x) => x,
                None => vstd::pervasive::unreached(),
            };
            proof {
                assert(v == qold[qold.len() - 1]);
                assert(visited@[v as int]);
                assert(g.vert_live(v as int));
                assert(!queue@.contains(v)) by {
                    if queue@.contains(v) {
                        let z = choose|z: int| 0 <= z < queue@.len() && queue@[z] == v;
                        assert(qold[z] == v);
                        assert(qold[qold.len() - 1] == v && z != qold.len() - 1);
                    }
                }
                assert forall|z: int| 0 <= z < queue@.len() implies (
                #[trigger] queue@[z] as int) < n_v && visited@[queue@[z] as int] by {
                    assert(queue@[z] == qold[z]);
                }
                assert(queue@.no_duplicates()) by {
                    assert forall|z1: int, z2: int|
                        0 <= z1 < queue@.len() && 0 <= z2 < queue@.len() && z1 != z2 implies queue@[
                    z1] != queue@[z2] by {
                        assert(queue@[z1] == qold[z1]);
                        assert(queue@[z2] == qold[z2]);
                    }
                }
                assert forall|w: int, k2: int|
                    #![trigger g.adj(w)[k2]]
                    0 <= w < n_v && visited@[w] && !queue@.contains(w as usize) && w != v as int
                        && 0 <= k2 < g.adj(w).len() implies {
                    &&& visited@[g.edge_at(g.adj(w)[k2] as int).verts.0 as int]
                    &&& visited@[g.edge_at(g.adj(w)[k2] as int).verts.1 as int]
                } by {
                    assert(!qold.contains(w as usize)) by {
                        if qold.contains(w as usize) {
                            let z = choose|z: int| 0 <= z < qold.len() && qold[z] == w as usize;
                            if z < qold.len() - 1 {
                                assert(queue@[z] == w as usize);
                            } else {
                                assert(qold[z] == v);
                            }
                        }
                    }
                }
            }
            let deg = self.vert(v).edges.len();
            let mut k: usize = 0;
            while k < deg
                invariant
                    k <= deg,
                    deg == g.adj(v as int).len(),
                    (v as int) < n_v,
                    visited@.len() == n_v,
                    table@.len() == n_v,
                    visited@[index as int],
                    visited@[v as int],
                    !queue@.contains(v),
                    forall|i: int|
                        0 <= i < n_v ==> ((#[trigger] table@[i]) is Some <==> visited@[i]),
                    forall|w: int|
                        0 <= w < n_v && #[trigger] visited@[w] ==> g.vert_live(w) && g.reaches(
                            index as int,
                            w,
                        ),
                    forall|w: int|
                        0 <= w < n_v && #[trigger] visited@[w] ==> table@[w] is Some && (
                        table@[w]->Some_0 as int) < order@.len() && order@[table@[w]->Some_0 as int]
                            == w,
                    table@[index as int] == Some(0usize),
                    forall|t: int|
                        0 <= t < order@.len() ==> ((#[trigger] order@[t]) as int) < n_v
                            && visited@[order@[t] as int] && table@[order@[t] as int] == Some(
                            t as usize,
                        ),
                    forall|z: int|
                        0 <= z < queue@.len() ==> (#[trigger] queue@[z] as int) < n_v
                            && visited@[queue@[z] as int],
                    queue@.no_duplicates(),
                    forall|w: int, k2: int|
                        #![trigger g.adj(w)[k2]]
                        0 <= w < n_v && visited@[w] && !queue@.contains(w as usize) && w != v
                            && 0 <= k2 < g.adj(w).len() ==> {
                            &&& visited@[g.edge_at(g.adj(w)[k2] as int).verts.0 as int]
                            &&& visited@[g.edge_at(g.adj(w)[k2] as int).verts.1 as int]
                        },
                    forall|j: int|
                        0 <= j < k ==> {
                            &&& visited@[g.edge_at((#[trigger] g.adj(v as int)[j]) as int).verts.0 as int]
                            &&& visited@[g.edge_at(g.adj(v as int)[j] as int).verts.1 as int]
                        },
                    queue@.len() + count_unmarked(visited@) == q0 - 1 + count0,
                    count_unmarked(visited@) <= count0,
                decreases deg - k,
            {
                let e = self.vert(v).edges[k];
                proof {
                    assert(g.adj(v as int)[k as int] == e);
                    assert(g.edge_live(e as int));
                    assert(g.touches(e as int, v as int));
                }
                let a = self.edge(e).verts.0;
                let b = self.edge(e).verts.1;
                proof {
                    assert(g.vert_live(a as int));
                    assert(g.vert_live(b as int));
                    assert(g.linked(v as int, a as int)) by {
                        assert(g.edge_live(e as int) && g.touches(e as int, v as int)
                            && g.touches(e as int, a as int));
                    }
                    assert(g.linked(v as int, b as int)) by {
                        assert(g.edge_live(e as int) && g.touches(e as int, v as int)
                            && g.touches(e as int, b as int));
                    }
                }
                if !visited[a] {
                    proof {
                        lemma_count_unmarked_update(visited@, a as int);
                        lemma_reach_step(g, index as int, v as int, a as int);
                        assert(!queue@.contains(a)) by {
                            if queue@.contains(a) {
                                let z = choose|z: int| 0 <= z < queue@.len() && queue@[z] == a;
                                assert(visited@[queue@[z] as int]);
                            }
                        }
                    }
                    let ghost visa = visited@;
                    let ghost qa = queue@;
                    visited[a] = true;
                    table[a] = Some(order.len());
                    order.push(a);
                    queue.push(a);
                    proof {
                        assert forall|w: int|
                            0 <= w < n_v && #[trigger] visited@[w] implies table@[w] is Some && (
                        table@[w]->Some_0 as int) < order@.len() && order@[table@[w]->Some_0 as int]
                            == w by {
                            if w != a as int {
                                assert(order@[order@.len() - 1] == a);
                            }
                        }
                        assert forall|w: int, k2: int|
                            #![trigger g.adj(w)[k2]]
                            0 <= w < n_v && visited@[w] && !queue@.contains(w as usize) && w
                                != v && 0 <= k2 < g.adj(w).len() implies {
                            &&& visited@[g.edge_at(g.adj(w)[k2] as int).verts.0 as int]
                            &&& visited@[g.edge_at(g.adj(w)[k2] as int).verts.1 as int]
                        } by {
                            assert(queue@[queue@.len() - 1] == a);
                            assert(queue@.contains(a));
                            assert(w != a as int);
                            assert(visa[w]);
                            assert(!qa.contains(w as usize)) by {
                                if qa.contains(w as usize) {
                                    let z = choose|z: int|
                                        0 <= z < qa.len() && qa[z] == w as usize;
                                    assert(queue@[z] == w as usize);
                                }
                            }
                            assert(visa[g.edge_at(g.adj(w)[k2] as int).verts.0 as int]);
                            assert(visa[g.edge_at(g.adj(w)[k2] as int).verts.1 as int]);
                        }
                    }
                }
                if b != a {
                    if !visited[b] {
                        proof {
                            lemma_count_unmarked_update(visited@, b as int);
                            lemma_reach_step(g, index as int, v as int, b as int);
                            assert(!queue@.contains(b)) by {
                                if queue@.contains(b) {
                                    let z = choose|z: int|
                                        0 <= z < queue@.len() && queue@[z] == b;
                                    assert(visited@[queue@[z] as int]);
                                }
                            }
                        }
                        let ghost visb = visited@;
                        let ghost qb = queue@;
                        visited[b] = true;
                        table[b] = Some(order.len());
                        order.push(b);
                        queue.push(b);
                        proof {
                            assert forall|w: int|
                                0 <= w < n_v && #[trigger] visited@[w] implies table@[w] is Some
                                && (table@[w]->Some_0 as int) < order@.len() && order@[table@[w]
                                ->Some_0 as int] == w by {
                                if w != b as int {
                                    assert(order@[order@.len() - 1] == b);
                                }
                            }
                            assert forall|w: int, k2: int|
                                #![trigger g.adj(w)[k2]]
                                0 <= w < n_v && visited@[w] && !queue@.contains(w as usize) && w
                                    != v && 0 <= k2 < g.adj(w).len() implies {
                                &&& visited@[g.edge_at(g.adj(w)[k2] as int).verts.0 as int]
                                &&& visited@[g.edge_at(g.adj(w)[k2] as int).verts.1 as int]
                            } by {
                                assert(queue@[queue@.len() - 1] == b);
                                assert(queue@.contains(b));
                                assert(w != b as int);
                                assert(visb[w]);
                                assert(!qb.contains(w as usize)) by {
                                    if qb.contains(w as usize) {
                                        let z = choose|z: int|
                                            0 <= z < qb.len() && qb[z] == w as usize;
                                        assert(queue@[z] == w as usize);
                                    }
                                }
                                assert(visb[g.edge_at(g.adj(w)[k2] as int).verts.0 as int]);
                                assert(visb[g.edge_at(g.adj(w)[k2] as int).verts.1 as int]);
                            }
                        }
                    }
                }
                k = k + 1;
            }
            proof {
                assert forall|w: int, k2: int|
                    #![trigger g.adj(w)[k2]]
                    0 <= w < n_v && visited@[w] && !queue@.contains(w as usize) && 0 <= k2
                        < g.adj(w).len() implies {
                    &&& visited@[g.edge_at(g.adj(w)[k2] as int).verts.0 as int]
                    &&& visited@[g.edge_at(g.adj(w)[k2] as int).verts.1 as int]
                } by {
                    if w == v as int {
                        assert(visited@[g.edge_at(g.adj(v as int)[k2] as int).verts.0 as int]);
                    }
                }
            }
        }
        // the marked set is closed under live edges and is exactly the
        // region `index` reaches
        proof {
            assert forall|e: int| #[trigger] g.edge_live(e) implies (visited@[g.edge_at(
                e,
            ).verts.0 as int] <==> visited@[g.edge_at(e).verts.1 as int]) by {
                let a = g.edge_at(e).verts.0 as int;
                let b = g.edge_at(e).verts.1 as int;
                assert(g.vert_live(a) && g.vert_live(b));
                if visited@[a] {
                    assert(g.adj(a).contains(e as usize));
                    let ka = choose|ka: int| 0 <= ka < g.adj(a).len() && g.adj(a)[ka] == e;
                    assert(g.adj(a)[ka] == e);
                    assert(visited@[g.edge_at(g.adj(a)[ka] as int).verts.1 as int]);
                }
                if visited@[b] {
                    assert(g.adj(b).contains(e as usize));
                    let kb = choose|kb: int| 0 <= kb < g.adj(b).len() && g.adj(b)[kb] == e;
                    assert(g.adj(b)[kb] == e);
                    assert(visited@[g.edge_at(g.adj(b)[kb] as int).verts.0 as int]);
                }
            }
            assert forall|v: int|
                0 <= v < n_v && g.vert_live(v) && g.reaches(index as int, v) implies visited@[v] by {
                let p = choose|p: Seq<int>|
                    {
                        &&& p.len() >= 1
                        &&& p[0] == index as int
                        &&& p.last() == v
                        &&& forall|i: int| 0 <= i < p.len() ==> g.vert_live(#[trigger] p[i])
                        &&& forall|i: int|
                            0 <= i < p.len() - 1 ==> g.linked(#[trigger] p[i], p[i + 1])
                    };
                lemma_closed_set_reaches(g, visited@, index as int, p, p.len() - 1);
            }
            assert forall|e: int| #[trigger] g.edge_live(e) implies ((table@[g.edge_at(
                e,
            ).verts.0 as int] is Some) <==> (table@[g.edge_at(e).verts.1 as int] is Some)) by {
                assert(g.vert_live(g.edge_at(e).verts.0 as int));
                assert(g.vert_live(g.edge_at(e).verts.1 as int));
            }
            assert(order@.no_duplicates()) by {
                assert forall|t1: int, t2: int|
                    0 <= t1 < order@.len() && 0 <= t2 < order@.len() && t1 != t2 implies order@[t1]
                    != order@[t2] by {
                    assert((order@[t1] as int) < n_v);
                    assert((order@[t2] as int) < n_v);
                    assert(table@[order@[t1] as int] == Some(t1 as usize));
                    assert(table@[order@[t2] as int] == Some(t2 as usize));
                    if order@[t1] == order@[t2] {
                        assert(table@[order@[t1] as int] == table@[order@[t2] as int]);
                        assert(t1 as usize == t2 as usize);
                        vstd::std_specs::vec::axiom_spec_len(&order);
                        assert(order@.len() <= usize::MAX);
                        assert(t1 == t2);
                        assert(false);
                    }
                }
            }
            assert forall|v: int|
                0 <= v < table@.len() implies ((#[trigger] table@[v]) is Some <==> order@.contains(
                v as usize,
            )) by {
                if table@[v] is Some {
                    assert(visited@[v]);
                    assert(order@[table@[v]->Some_0 as int] == v);
                }
                if order@.contains(v as usize) {
                    let t = choose|t: int| 0 <= t < order@.len() && order@[t] == v as usize;
                    assert(table@[order@[t] as int] == Some(t as usize));
                }
            }
        }
        (order, table)
    }

    /// Creates a new graph by removing the connected region of `index` from
    /// this one: every vertex that `index` reaches along live edges, and
    /// every edge among those vertices, moves to the new graph, with
    /// `index` renumbered to 0. Returns the new graph and the mapping from
    /// old indices to new ones.
    #[verifier::spinoff_prover]
    #[verifier::rlimit(100)]
    pub fn isolate(&mut self, index: usize) -> (r: (Self, Converter))
        requires
            old(self).wf(),
            old(self).vert_live(index as int),
        ensures
            final(self).wf(),
            r.0.wf(),
            Self::isolated(*old(self), *final(self), r.0, r.1.table@, index),
            forall|i: int|
                0 <= i < old(self).verts@.len() ==> (#[trigger] r.1.spec_conv(i)) == r.1.table@[i],
            forall|i: int|
                !(0 <= i < old(self).verts@.len()) ==> (#[trigger] r.1.spec_conv(i)) is None,
    {
        let ghost g = *old(self);
        let (order, table) = self.mark_region(index);
        let part = self.extract(&order, &table);
        proof {
            assert(Self::region_order(g, table@, order@));
            assert(Self::extracted(g, *self, part, table@, order@));
            assert(table@[index as int] == Some(0usize));
        }
        (part, Converter { table })
    }

    #[verifier::spinoff_prover]
    #[verifier::loop_isolation(false)]
    #[verifier::rlimit(100)]
    fn extract(&mut self, order: &Vec<usize>, table: &Vec<Option<usize>>) -> (part: Self)
        requires
            old(self).wf(),
            table@.len() == old(self).verts@.len(),
            order@.no_duplicates(),
            forall|t: int|
                0 <= t < order@.len() ==> old(self).vert_live((#[trigger] order@[t]) as int)
                    && table@[order@[t] as int] == Some(t as usize),
            forall|v: int|
                0 <= v < table@.len() ==> ((#[trigger] table@[v]) is Some <==> order@.contains(
                    v as usize,
                )),
            forall|e: int|
                #[trigger] old(self).edge_live(e) ==> ((table@[old(self).edge_at(
                    e,
                ).verts.0 as int] is Some) <==> (table@[old(self).edge_at(
                    e,
                ).verts.1 as int] is Some)),
        ensures
            final(self).wf(),
            part.wf(),
            Self::extracted(*old(self), *final(self), part, table@, order@),
            final(self).empty_v@.len() == old(self).empty_v@.len() + order@.len(),
            part.empty_v@.len() == 0,
            part.empty_e@.len() == 0,
    {
        let ghost pre = *old(self);
        let mut part: Self = Graph::new();
        let mut cl: Vec<(E, usize, usize)> = Vec::new();
        let ghost mut elabel: Seq<int> = Seq::empty();
        let ghost mut at: Map<int, int> = Map::empty();
        let n = order.len();
        let mut t: usize = 0;
        while t < n
            invariant
                self.wf(),
                part.wf(),
                t <= n,
                self.verts@.len() == pre.verts@.len(),
                self.edges@.len() == pre.edges@.len(),
                part.verts@.len() == t,
                part.edges@.len() == 0,
                part.empty_v@.len() == 0,
                part.empty_e@.len() == 0,
                self.empty_v@.len() == pre.empty_v@.len() + t,
                forall|z: int| 0 <= z < t ==> #[trigger] part.vert_live(z),
                forall|z: int|
                    0 <= z < t ==> (#[trigger] part.vert_at(z)).val == pre.vert_at(
                        order@[z] as int,
                    ).val,
                forall|z: int| 0 <= z < t ==> !self.vert_live((#[trigger] order@[z]) as int),
                forall|z: int|
                    t <= z < n ==> self.vert_live((#[trigger] order@[z]) as int)
                        && self.vert_at(order@[z] as int).val == pre.vert_at(
                        order@[z] as int,
                    ).val,
                forall|v: int|
                    #![trigger table@[v]]
                    0 <= v < pre.verts@.len() && table@[v] is None && !pre.vert_live(v)
                        ==> self.verts@[v] == pre.verts@[v],
                forall|v: int|
                    #![trigger table@[v]]
                    0 <= v < pre.verts@.len() && table@[v] is None && pre.vert_live(v) ==> {
                        &&& self.vert_live(v)
                        &&& self.vert_at(v).index == pre.vert_at(v).index
                        &&& self.vert_at(v).val == pre.vert_at(v).val
                        &&& self.adj(v) == pre.adj(v)
                    },
                forall|e: int|
                    0 <= e < pre.edges@.len() ==> ((#[trigger] self.edge_live(e)) <==> (
                    pre.edge_live(e) && !order@.subrange(0, t as int).contains(
                        pre.edge_at(e).verts.0,
                    ) && !order@.subrange(0, t as int).contains(pre.edge_at(e).verts.1))),
                forall|e: int|
                    #[trigger] self.edge_live(e) ==> self.edges@[e] == pre.edges@[e],
                elabel.len() == cl@.len(),
                forall|s: int|
                    0 <= s < cl@.len() ==> {
                        &&& 0 <= #[trigger] elabel[s] < pre.edges@.len()
                        &&& pre.edge_live(elabel[s])
                        &&& table@[pre.edge_at(elabel[s]).verts.0 as int] is Some
                        &&& table@[pre.edge_at(elabel[s]).verts.1 as int] is Some
                        &&& cl@[s] == (
                        pre.edge_at(elabel[s]).weight,
                        pre.edge_at(elabel[s]).verts.0,
                        pre.edge_at(elabel[s]).verts.1,
                        )
                    },
                forall|oe: int|
                    0 <= oe < pre.edges@.len() && #[trigger] pre.edge_live(oe) && (
                    order@.subrange(0, t as int).contains(pre.edge_at(oe).verts.0)
                        || order@.subrange(0, t as int).contains(pre.edge_at(oe).verts.1)) ==> {
                        &&& at.contains_key(oe)
                        &&& 0 <= at[oe] < elabel.len()
                        &&& elabel[at[oe]] == oe
                    },
            decreases n - t,
        {
            let v = order[t];
            let ghost cur = *self;
            let (vert, mut edges) = self.rem_vert(v);
            let ghost part0 = part;
            let nv = part.add_vert(vert.val);
            let ghost rlist = edges@;
            let ghost cl0 = cl@;
            proof {
                assert(nv == t);
                assert forall|z: int| 0 <= z < t implies #[trigger] part.vert_live(z) by {
                    assert(part.verts@[z] == part0.verts@[z]);
                    assert(part0.vert_live(z));
                }
                assert forall|z: int| 0 <= z < t implies (#[trigger] part.vert_at(z)).val
                    == pre.vert_at(order@[z] as int).val by {
                    assert(part.verts@[z] == part0.verts@[z]);
                    assert(part0.vert_live(z));
                    assert(part0.vert_at(z).val == pre.vert_at(order@[z] as int).val);
                }
                assert(part.vert_live(t as int));
                assert(part.vert_at(t as int).val == pre.vert_at(order@[t as int] as int).val);
                assert forall|z: int|
                    t as int + 1 <= z < n implies self.vert_live((#[trigger] order@[z]) as int)
                    && self.vert_at(order@[z] as int).val == pre.vert_at(
                    order@[z] as int,
                ).val by {
                    let w = order@[z] as int;
                    assert(order@[z] != order@[t as int]);
                    assert(cur.vert_live(w));
                    assert(self.vert_at(w) == self.vert_at(w));
                    assert(self.vert_live(w));
                }
                assert(cur.adj(v as int).len() == rlist.len());
                assert forall|j: int| 0 <= j < rlist.len() implies {
                    &&& pre.edge_live((#[trigger] cur.adj(v as int)[j]) as int)
                    &&& rlist[j] == pre.edge_at(cur.adj(v as int)[j] as int)
                    &&& table@[pre.edge_at(cur.adj(v as int)[j] as int).verts.0 as int] is Some
                    &&& table@[pre.edge_at(cur.adj(v as int)[j] as int).verts.1 as int] is Some
                } by {
                    let x = cur.adj(v as int)[j] as int;
                    assert(cur.edge_live(x));
                    assert(cur.edges@[x] == pre.edges@[x]);
                    assert(rlist[j] == cur.edge_at(x));
                    assert(cur.touches(x, v as int));
                    assert(table@[v as int] is Some);
                    assert(pre.edge_live(x));
                }
                assert forall|w: int|
                    #![trigger table@[w]]
                    0 <= w < pre.verts@.len() && table@[w] is None && pre.vert_live(
                        w,
                    ) implies {
                    &&& self.vert_live(w)
                    &&& self.vert_at(w).index == pre.vert_at(w).index
                    &&& self.vert_at(w).val == pre.vert_at(w).val
                    &&& self.adj(w) == pre.adj(w)
                } by {
                    assert(w != v);
                    assert(cur.vert_live(w));
                    assert(cur.adj(w) == pre.adj(w));
                    assert(self.adj(w) == drop_all(cur.adj(w), cur.adj(v as int)));
                    assert forall|k: int| 0 <= k < cur.adj(w).len() implies !cur.adj(
                        v as int,
                    ).contains(#[trigger] cur.adj(w)[k]) by {
                        if cur.adj(v as int).contains(cur.adj(w)[k]) {
                            let x = cur.adj(w)[k] as int;
                            assert(cur.edge_live(x));
                            assert(cur.touches(x, w));
                            assert(cur.edges@[x] == pre.edges@[x]);
                            assert(pre.edge_live(x));
                            let j = choose|j: int|
                                0 <= j < cur.adj(v as int).len() && cur.adj(v as int)[j]
                                    == cur.adj(w)[k];
                            assert(table@[pre.edge_at(x).verts.0 as int] is Some);
                            assert(table@[pre.edge_at(x).verts.1 as int] is Some);
                            assert(pre.edge_at(x).verts.0 == w || pre.edge_at(x).verts.1 == w);
                        }
                    }
                    lemma_drop_all_disjoint(cur.adj(w), cur.adj(v as int));
                }
                assert(order@.subrange(0, t as int + 1) =~= order@.subrange(0, t as int).push(
                    v,
                ));
                assert forall|e: int| 0 <= e < pre.edges@.len() implies ((
                #[trigger] self.edge_live(e)) <==> (pre.edge_live(e) && !order@.subrange(
                    0,
                    t as int + 1,
                ).contains(pre.edge_at(e).verts.0) && !order@.subrange(0, t as int + 1).contains(
                    pre.edge_at(e).verts.1,
                ))) by {
                    assert(self.edge_live(e) <==> (cur.edge_live(e) && !cur.touches(
                        e,
                        v as int,
                    )));
                    if cur.edge_live(e) {
                        assert(cur.edges@[e] == pre.edges@[e]);
                    }
                    lemma_push_contains(
                        order@.subrange(0, t as int),
                        v,
                        pre.edge_at(e).verts.0,
                    );
                    lemma_push_contains(
                        order@.subrange(0, t as int),
                        v,
                        pre.edge_at(e).verts.1,
                    );
                }
                assert forall|e: int| #[trigger] self.edge_live(e) implies self.edges@[e]
                    == pre.edges@[e] by {
                    assert(0 <= e < pre.edges@.len());
                    assert(cur.edge_live(e) && !cur.touches(e, v as int));
                    assert(self.edges@[e] == cur.edges@[e]);
                }
            }
            let m = edges.len();
            let mut q: usize = 0;
            while q < m
                invariant
                    q <= m,
                    m == rlist.len(),
                    edges@ == rlist.subrange(q as int, m as int),
                    cl@.len() == cl0.len() + q,
                    elabel.len() == cl@.len(),
                    forall|s: int|
                        0 <= s < cl@.len() ==> {
                            &&& 0 <= #[trigger] elabel[s] < pre.edges@.len()
                            &&& pre.edge_live(elabel[s])
                            &&& table@[pre.edge_at(elabel[s]).verts.0 as int] is Some
                            &&& table@[pre.edge_at(elabel[s]).verts.1 as int] is Some
                            &&& cl@[s] == (
                            pre.edge_at(elabel[s]).weight,
                            pre.edge_at(elabel[s]).verts.0,
                            pre.edge_at(elabel[s]).verts.1,
                            )
                        },
                    forall|z: int|
                        0 <= z < q ==> (#[trigger] elabel[cl0.len() + z]) == cur.adj(
                            v as int,
                        )[z] as int,
                    forall|z: int|
                        0 <= z < q ==> at.contains_key((#[trigger] cur.adj(v as int)[z]) as int)
                            && at[cur.adj(v as int)[z] as int] == cl0.len() + z,
                    forall|oe: int|
                        0 <= oe < pre.edges@.len() && #[trigger] pre.edge_live(oe) && (
                        order@.subrange(0, t as int).contains(pre.edge_at(oe).verts.0)
                            || order@.subrange(0, t as int).contains(
                            pre.edge_at(oe).verts.1,
                        )) ==> {
                            &&& at.contains_key(oe)
                            &&& 0 <= at[oe] < elabel.len()
                            &&& elabel[at[oe]] == oe
                        },
                decreases m - q,
            {
                proof {
                    assert(edges@[0] == rlist[q as int]);
                }
                let ghost clp = cl@;
                let edge = edges.remove(0);
                cl.push((edge.weight, edge.verts.0, edge.verts.1));
                proof {
                    assert(edges@ =~= rlist.subrange(q as int + 1, m as int));
                    let oe = cur.adj(v as int)[q as int] as int;
                    let ghost el0 = elabel;
                    let ghost at0 = at;
                    elabel = elabel.push(oe);
                    at = at.insert(oe, cl@.len() - 1);
                    assert(cur.edge_live(oe));
                    assert(cur.adj(v as int).no_duplicates());
                    assert(rlist[q as int] == pre.edge_at(oe));
                    assert forall|s: int| 0 <= s < cl@.len() implies {
                        &&& 0 <= #[trigger] elabel[s] < pre.edges@.len()
                        &&& pre.edge_live(elabel[s])
                        &&& table@[pre.edge_at(elabel[s]).verts.0 as int] is Some
                        &&& table@[pre.edge_at(elabel[s]).verts.1 as int] is Some
                        &&& cl@[s] == (
                        pre.edge_at(elabel[s]).weight,
                        pre.edge_at(elabel[s]).verts.0,
                        pre.edge_at(elabel[s]).verts.1,
                        )
                    } by {
                        if s < clp.len() {
                            assert(elabel[s] == el0[s]);
                            assert(cl@[s] == clp[s]);
                        } else {
                            assert(elabel[s] == oe);
                            assert(cl@[s] == (edge.weight, edge.verts.0, edge.verts.1));
                            assert(edge == rlist[q as int]);
                        }
                    }
                    assert forall|z: int|
                        0 <= z < q + 1 implies (#[trigger] elabel[cl0.len() + z]) == cur.adj(
                        v as int,
                    )[z] as int by {
                        if z < q {
                            assert(elabel[cl0.len() + z] == el0[cl0.len() + z]);
                        } else {
                            assert(elabel[el0.len() as int] == oe);
                        }
                    }
                    assert forall|z: int|
                        0 <= z < q + 1 implies at.contains_key(
                        (#[trigger] cur.adj(v as int)[z]) as int,
                    ) && at[cur.adj(v as int)[z] as int] == cl0.len() + z by {
                        if z < q {
                            assert(cur.adj(v as int)[z] != cur.adj(v as int)[q as int]);
                            assert(at0.contains_key(cur.adj(v as int)[z] as int));
                        }
                    }
                    assert forall|oe2: int|
                        0 <= oe2 < pre.edges@.len() && #[trigger] pre.edge_live(oe2) && (
                        order@.subrange(0, t as int).contains(pre.edge_at(oe2).verts.0)
                            || order@.subrange(0, t as int).contains(
                            pre.edge_at(oe2).verts.1,
                        )) implies {
                        &&& at.contains_key(oe2)
                        &&& 0 <= at[oe2] < elabel.len()
                        &&& elabel[at[oe2]] == oe2
                    } by {
                        assert(!cur.edge_live(oe2));
                        assert(oe2 != oe);
                        assert(at0.contains_key(oe2));
                        assert(at[oe2] == at0[oe2]);
                        assert(elabel[at0[oe2]] == el0[at0[oe2]]);
                    }
                }
                q = q + 1;
            }
            proof {
                assert forall|oe: int|
                    0 <= oe < pre.edges@.len() && #[trigger] pre.edge_live(oe) && (
                    order@.subrange(0, t as int + 1).contains(pre.edge_at(oe).verts.0)
                        || order@.subrange(0, t as int + 1).contains(
                        pre.edge_at(oe).verts.1,
                    )) implies {
                    &&& at.contains_key(oe)
                    &&& 0 <= at[oe] < elabel.len()
                    &&& elabel[at[oe]] == oe
                } by {
                    lemma_push_contains(
                        order@.subrange(0, t as int),
                        v,
                        pre.edge_at(oe).verts.0,
                    );
                    lemma_push_contains(
                        order@.subrange(0, t as int),
                        v,
                        pre.edge_at(oe).verts.1,
                    );
                    if !(order@.subrange(0, t as int).contains(pre.edge_at(oe).verts.0)
                        || order@.subrange(0, t as int).contains(pre.edge_at(oe).verts.1)) {
                        assert(pre.edge_at(oe).verts.0 == v || pre.edge_at(oe).verts.1 == v);
                        assert(cur.edge_live(oe));
                        assert(cur.edges@[oe] == pre.edges@[oe]);
                        assert(cur.touches(oe, v as int));
                        assert(cur.adj(v as int).contains(oe as usize)) by {
                            assert(cur.adj(cur.edge_at(oe).verts.0 as int).contains(
                                oe as usize,
                            ));
                            assert(cur.adj(cur.edge_at(oe).verts.1 as int).contains(
                                oe as usize,
                            ));
                        }
                        let z = choose|z: int|
                            0 <= z < cur.adj(v as int).len() && cur.adj(v as int)[z]
                                == oe as usize;
                        assert(at.contains_key((cur.adj(v as int)[z]) as int));
                        assert(at[oe] == cl0.len() + z);
                        assert(elabel[cl0.len() + z] == cur.adj(v as int)[z] as int);
                    }
                }
            }
            t = t + 1;
        }
        proof {
            assert(order@.subrange(0, n as int) =~= order@);
        }
        let ghost fin0 = *self;
        let ghost clfull = cl@;
        while cl.len() > 0
            invariant
                *self == fin0,
                part.wf(),
                part.verts@.len() == n,
                part.empty_v@.len() == 0,
                part.empty_e@.len() == 0,
                forall|z: int| 0 <= z < n ==> #[trigger] part.vert_live(z),
                forall|z: int|
                    0 <= z < n ==> (#[trigger] part.vert_at(z)).val == pre.vert_at(
                        order@[z] as int,
                    ).val,
                part.edges@.len() + cl@.len() == clfull.len(),
                cl@ == clfull.subrange(part.edges@.len() as int, clfull.len() as int),
                forall|s: int|
                    0 <= s < part.edges@.len() ==> #[trigger] part.edge_live(s)
                        && Self::edge_moved(pre, part, table@, elabel[s], s),
            decreases cl@.len(),
        {
            let ghost done = part.edges@.len() as int;
            proof {
                assert(cl@[0] == clfull[done]);
                assert(0 <= elabel[done] < pre.edges@.len());
                assert(pre.edge_live(elabel[done]));
                assert(table@[pre.edge_at(elabel[done]).verts.0 as int] is Some);
                assert(table@[pre.edge_at(elabel[done]).verts.1 as int] is Some);
            }
            let (w, a, b) = cl.remove(0);
            proof {
                assert((w, a, b) == clfull[done]);
                assert(a == pre.edge_at(elabel[done]).verts.0);
                assert(b == pre.edge_at(elabel[done]).verts.1);
                assert(order@.contains(a));
                assert(order@.contains(b));
                let za = choose|za: int| 0 <= za < n && order@[za] == a;
                assert(table@[a as int] == Some(za as usize));
                let zb = choose|zb: int| 0 <= zb < n && order@[zb] == b;
                assert(table@[b as int] == Some(zb as usize));
            }
            let na = match table[a] {
                Some(x) => x,
                None => vstd::pervasive::unreached(),
            };
            let nb = match table[b] {
                Some(x) => x,
                None => vstd::pervasive::unreached(),
            };
            proof {
                assert(part.vert_live(na as int));
                assert(part.vert_live(nb as int));
            }
            let ghost part0 = part;
            let ne = part.add_edge(na, w, nb);
            proof {
                assert(ne as int == done);
                assert(cl@ =~= clfull.subrange(part.edges@.len() as int, clfull.len() as int));
                assert forall|z: int| 0 <= z < n implies #[trigger] part.vert_live(z) by {
                    if z != na as int && z != nb as int {
                        assert(part.verts@[z] == part0.verts@[z]);
                        assert(part0.vert_live(z));
                    }
                }
                assert forall|z: int| 0 <= z < n implies (#[trigger] part.vert_at(z)).val
                    == pre.vert_at(order@[z] as int).val by {
                    assert(part0.vert_at(z).val == pre.vert_at(order@[z] as int).val);
                    if z != na as int && z != nb as int {
                        assert(part.verts@[z] == part0.verts@[z]);
                        assert(part0.vert_live(z));
                    }
                }
                assert forall|s: int| 0 <= s < part.edges@.len() implies #[trigger] part.edge_live(
                    s,
                ) && Self::edge_moved(pre, part, table@, elabel[s], s) by {
                    if s < done {
                        assert(part0.edge_live(s));
                        assert(part.edges@[s] == part0.edges@[s]);
                        assert(Self::edge_moved(pre, part0, table@, elabel[s], s));
                    } else {
                        assert(s == done);
                        assert(part.edge_at(s) == (Edge { index: ne, weight: w, verts: (na, nb) }));
                        assert(table@[pre.edge_at(elabel[s]).verts.0 as int] == Some(na));
                        assert(table@[pre.edge_at(elabel[s]).verts.1 as int] == Some(nb));
                    }
                }
            }
        }
        proof {
            let post = *self;
            assert forall|e: int| 0 <= e < pre.edges@.len() implies ((#[trigger] post.edge_live(
                e,
            )) <==> (pre.edge_live(e) && table@[pre.edge_at(e).verts.0 as int] is None)) by {
                if pre.edge_live(e) {
                    assert(post.edge_live(e) <==> (!order@.contains(pre.edge_at(e).verts.0)
                        && !order@.contains(pre.edge_at(e).verts.1)));
                    assert(table@[pre.edge_at(e).verts.0 as int] is Some <==> order@.contains(
                        pre.edge_at(e).verts.0,
                    ));
                    assert(table@[pre.edge_at(e).verts.1 as int] is Some <==> order@.contains(
                        pre.edge_at(e).verts.1,
                    ));
                }
            }
            assert forall|e: int|
                pre.edge_live(e) && table@[pre.edge_at(e).verts.0 as int] is None implies (
            #[trigger] post.edges@[e]) == pre.edges@[e] by {
                assert(post.edge_live(e));
            }
            assert forall|v: int|
                0 <= v < pre.verts@.len() && table@[v] is None && pre.vert_live(v) implies {
                &&& post.vert_live(v)
                &&& (#[trigger] post.vert_at(v)).index == pre.vert_at(v).index
                &&& post.vert_at(v).val == pre.vert_at(v).val
                &&& post.adj(v) == pre.adj(v)
            } by {
                assert(table@[v] == table@[v]);
                assert(post.vert_live(v));
            }
            assert forall|v: int|
                0 <= v < pre.verts@.len() && table@[v] is None && !pre.vert_live(v) implies (
            #[trigger] post.verts@[v]) == pre.verts@[v] by {
                assert(table@[v] == table@[v]);
            }
            assert forall|s: int| #[trigger] part.edge_live(s) implies exists|oe: int|
                Self::edge_moved(pre, part, table@, oe, s) by {
                assert(0 <= s < part.edges@.len());
                assert(Self::edge_moved(pre, part, table@, elabel[s], s));
            }
            assert forall|oe: int|
                #[trigger] pre.edge_live(oe) && table@[pre.edge_at(oe).verts.0 as int]
                    is Some implies exists|s: int| Self::edge_moved(pre, part, table@, oe, s) by {
                assert(order@.contains(pre.edge_at(oe).verts.0));
                assert(at.contains_key(oe));
                let s = at[oe];
                assert(elabel[s] == oe);
                assert(0 <= s < clfull.len());
                assert(part.edge_live(s));
                assert(Self::edge_moved(pre, part, table@, oe, s));
            }
        }
        part
    }

    /// Replaces the weight of the live edge `ei` in place, returning the
    /// weight it held before.
    fn swap_weight(&mut self, ei: usize, weight: E) -> (w: E)
        requires
            old(self).wf(),
            old(self).edge_live(ei as int),
        ensures
            final(self).wf(),
            w == old(self).edge_at(ei as int).weight,
            final(self).edges@ == old(self).edges@.update(
                ei as int,
                Some((Edge { index: ei, weight, verts: old(self).edge_at(ei as int).verts })),
            ),
            final(self).verts == old(self).verts,
            final(self).empty_v == old(self).empty_v,
            final(self).empty_e == old(self).empty_e,
    {
        let em = self.edge_mut(ei);
        let mut w = weight;
        core::mem::swap(&mut em.weight, &mut w);
        proof {
            let pre = *old(self);
            let post = *self;
            assert forall|i: int| #[trigger] post.vert_live(i) implies post.vert_at(i).index
                == i by {
                assert(pre.vert_live(i));
            }
            assert forall|e: int| #[trigger] post.edge_live(e) implies {
                &&& post.edge_at(e).index == e
                &&& post.vert_live(post.edge_at(e).verts.0 as int)
                &&& post.vert_live(post.edge_at(e).verts.1 as int)
            } by {
                assert(pre.edge_live(e));
                assert(post.edge_at(e).verts == pre.edge_at(e).verts);
                assert(pre.vert_live(pre.edge_at(e).verts.0 as int));
                assert(pre.vert_live(pre.edge_at(e).verts.1 as int));
            }
            assert forall|v2: int, k: int|
                post.vert_live(v2) && 0 <= k < post.adj(v2).len() implies {
                &&& post.edge_live(#[trigger] post.adj(v2)[k] as int)
                &&& post.touches(post.adj(v2)[k] as int, v2)
            } by {
                assert(pre.vert_live(v2));
                assert(post.adj(v2) == pre.adj(v2));
                assert(pre.edge_live(pre.adj(v2)[k] as int));
                assert(pre.touches(pre.adj(v2)[k] as int, v2));
                assert(post.edge_at(pre.adj(v2)[k] as int).verts == pre.edge_at(
                    pre.adj(v2)[k] as int,
                ).verts);
            }
            assert forall|e: int| #[trigger] post.edge_live(e) implies {
                &&& post.adj(post.edge_at(e).verts.0 as int).contains(e as usize)
                &&& post.adj(post.edge_at(e).verts.1 as int).contains(e as usize)
            } by {
                assert(pre.edge_live(e));
                assert(post.edge_at(e).verts == pre.edge_at(e).verts);
                assert(pre.adj(pre.edge_at(e).verts.0 as int).contains(e as usize));
                assert(pre.adj(pre.edge_at(e).verts.1 as int).contains(e as usize));
            }
            assert forall|v2: int| #[trigger] post.vert_live(v2) implies post.adj(
                v2,
            ).no_duplicates() by {
                assert(pre.vert_live(v2));
                assert(post.adj(v2) == pre.adj(v2));
            }
        }
        w
    }

    /// Finds the first edge on `start`'s incident list accepted by `pred`
    /// and replaces its weight in place, returning its index and the old
    /// weight; if none is accepted, adds a fresh edge from `start` to `end`
    /// instead and returns `None` for the old weight.
    #[verifier::spinoff_prover]
    pub fn replace_edge<P: Fn(&Edge<E>) -> bool>(
        &mut self,
        start: usize,
        weight: E,
        end: usize,
        pred: P,
    ) -> (r: (usize, Option<E>))
        requires
            old(self).wf(),
            old(self).vert_live(start as int),
            old(self).vert_live(end as int),
            forall|e: &Edge<E>| #[trigger] pred.requires((e,)),
        ensures
            final(self).wf(),
            match r.1 {
                Some(w) => {
                    &&& exists|k: int|
                        {
                            &&& 0 <= k < old(self).adj(start as int).len()
                            &&& r.0 == (#[trigger] old(self).adj(start as int)[k])
                            &&& forall|j: int|
                                0 <= j < k ==> pred.ensures(
                                    (
                                        &old(self).edge_at(
                                            #[trigger] old(self).adj(start as int)[j] as int,
                                        ),
                                    ),
                                    false,
                                )
                        }
                    &&& old(self).edge_live(r.0 as int)
                    &&& pred.ensures((&old(self).edge_at(r.0 as int),), true)
                    &&& w == old(self).edge_at(r.0 as int).weight
                    &&& final(self).edges@ == old(self).edges@.update(
                        r.0 as int,
                        Some(
                            (Edge {
                                index: r.0,
                                weight,
                                verts: old(self).edge_at(r.0 as int).verts,
                            }),
                        ),
                    )
                    &&& final(self).verts == old(self).verts
                    &&& final(self).empty_v == old(self).empty_v
                    &&& final(self).empty_e == old(self).empty_e
                },
                None => {
                    &&& forall|j: int|
                        0 <= j < old(self).adj(start as int).len() ==> pred.ensures(
                            (&old(self).edge_at(#[trigger] old(self).adj(start as int)[j] as int),),
                            false,
                        )
                    &&& Self::edge_inserted(
                        *old(self),
                        *final(self),
                        start,
                        weight,
                        end,
                        None,
                        None,
                        r.0,
                    )
                },
            },
    {
        let list_len = self.vert(start).edges.len();
        let mut k: usize = 0;
        let mut found: Option<usize> = None;
        while k < list_len && found.is_none()
            invariant
                self == old(self),
                self.wf(),
                self.vert_live(start as int),
                self.vert_live(end as int),
                forall|e: &Edge<E>| #[trigger] pred.requires((e,)),
                k <= list_len,
                list_len == self.adj(start as int).len(),
                found is None ==> forall|j: int|
                    0 <= j < k ==> pred.ensures(
                        (&self.edge_at(#[trigger] self.adj(start as int)[j] as int),),
                        false,
                    ),
                found matches Some(fi) ==> {
                    &&& k < list_len
                    &&& fi == self.adj(start as int)[k as int]
                    &&& pred.ensures((&self.edge_at(fi as int),), true)
                    &&& forall|j: int|
                        0 <= j < k ==> pred.ensures(
                            (&self.edge_at(#[trigger] self.adj(start as int)[j] as int),),
                            false,
                        )
                },
            decreases list_len - k, (if found is None {
                1int
            } else {
                0int
            }),
        {
            let ei = self.vert(start).edges[k];
            let b = pred(self.edge(ei));
            if b {
                found = Some(ei);
            } else {
                k = k + 1;
            }
        }
        match found {
            Some(ei) => {
                proof {
                    assert(self.adj(start as int).contains(ei)) by {
                        assert(self.adj(start as int)[k as int] == ei);
                    }
                    assert(self.edge_live(ei as int));
                }
                let w = self.swap_weight(ei, weight);
                proof {
                    assert(0 <= k < old(self).adj(start as int).len() && ei == old(self).adj(
                        start as int,
                    )[k as int]);
                }
                (ei, Some(w))
            },
            None => {
                let idx = self.add_edge(start, weight, end);
                (idx, None)
            },
        }
    }

    /// Upserts the edge from `start` to `end`: if one already exists between
    /// the pair (respecting direction on a directed graph, either orientation
    /// on an undirected one) its weight is replaced in place and the old
    /// weight returned; otherwise an edge is added as `add_edge` would.
    #[verifier::spinoff_prover]
    pub fn set_edge(&mut self, start: usize, weight: E, end: usize) -> (r: (usize, Option<E>))
        requires
            old(self).wf(),
            old(self).vert_live(start as int),
            old(self).vert_live(end as int),
        ensures
            final(self).wf(),
            match r.1 {
                Some(w) => {
                    &&& exists|k: int|
                        {
                            &&& 0 <= k < old(self).adj(start as int).len()
                            &&& r.0 == (#[trigger] old(self).adj(start as int)[k])
                            &&& forall|j: int|
                                0 <= j < k ==> !old(self).pair_matches(
                                    #[trigger] old(self).adj(start as int)[j] as int,
                                    start,
                                    end,
                                )
                        }
                    &&& old(self).edge_live(r.0 as int)
                    &&& old(self).pair_matches(r.0 as int, start, end)
                    &&& w == old(self).edge_at(r.0 as int).weight
                    &&& final(self).edges@ == old(self).edges@.update(
                        r.0 as int,
                        Some(
                            (Edge {
                                index: r.0,
                                weight,
                                verts: old(self).edge_at(r.0 as int).verts,
                            }),
                        ),
                    )
                    &&& final(self).verts == old(self).verts
                    &&& final(self).empty_v == old(self).empty_v
                    &&& final(self).empty_e == old(self).empty_e
                },
                None => {
                    &&& forall|j: int|
                        0 <= j < old(self).adj(start as int).len() ==> !old(self).pair_matches(
                            #[trigger] old(self).adj(start as int)[j] as int,
                            start,
                            end,
                        )
                    &&& Self::edge_inserted(
                        *old(self),
                        *final(self),
                        start,
                        weight,
                        end,
                        None,
                        None,
                        r.0,
                    )
                },
            },
    {
        let d = F::dir();
        let r = self.replace_edge(
            start,
            weight,
            end,
            (|e: &Edge<E>| -> (b: bool)
                ensures
                    b == (e.verts.0 == start && e.verts.1 == end || (!F::dir_spec() && e.verts.0
                        == end && e.verts.1 == start)),
                {
                    e.verts.0 == start && e.verts.1 == end || (!d && e.verts.0 == end && e.verts.1
                        == start)
                }),
        );
        r
    }

    /// A live edge joins `start` and `end` as a pair: exactly in a directed
    /// graph, in either orientation in an undirected one.
    pub open spec fn pair_matches(self, e: int, start: usize, end: usize) -> bool {
        self.edge_at(e).verts == (start, end) || (!F::dir_spec() && self.edge_at(e).verts == (
        end,
        start,
        ))
    }

    /// Removes an edge, preserving all other indices: vacates its slot,
    /// frees the slot for reuse, and removes its index from both endpoints'
    /// incident-edge lists.
    #[verifier::spinoff_prover]
    pub fn rem_edge(&mut self, index: usize) -> (r: Edge<E>)
        requires
            old(self).wf(),
            old(self).edge_live(index as int),
        ensures
            final(self).wf(),
            r == old(self).edge_at(index as int),
            Self::edge_removed(*old(self), *final(self), index),
    {
        let a = self.edge(index).verts.0;
        let b = self.edge(index).verts.1;
        proof {
            assert(old(self).edge_live(index as int));
            assert(old(self).adj(a as int).contains(index));
            assert(old(self).adj(b as int).contains(index));
        }
        let pos_a = self.adj_position(a, index);
        let vr = self.vert_mut(a);
        vr.edges.remove(pos_a);
        proof {
            lemma_remove_first_elems(old(self).adj(a as int), pos_a as int, index);
        }
        if b != a {
            let pos_b = self.adj_position(b, index);
            let vr2 = self.vert_mut(b);
            vr2.edges.remove(pos_b);
            proof {
                lemma_remove_first_elems(old(self).adj(b as int), pos_b as int, index);
            }
        }
        let slot = &mut self.edges[index];
        let e_opt = slot.take();
        let e = match e_opt {
            Some(x) => x,
            None => vstd::pervasive::unreached(),
        };
        self.empty_e.push(index);
        proof {
            let pre = *old(self);
            let post = *self;
            assert forall|i: int| #[trigger] post.vert_live(i) implies post.vert_at(i).index
                == i by {
                assert(pre.vert_live(i));
            }
            assert forall|e2: int| #[trigger] post.edge_live(e2) implies {
                &&& post.edge_at(e2).index == e2
                &&& post.vert_live(post.edge_at(e2).verts.0 as int)
                &&& post.vert_live(post.edge_at(e2).verts.1 as int)
            } by {
                assert(e2 != index);
                assert(pre.edge_live(e2));
                assert(pre.vert_live(pre.edge_at(e2).verts.0 as int));
                assert(pre.vert_live(pre.edge_at(e2).verts.1 as int));
            }
            assert forall|v2: int, k: int|
                post.vert_live(v2) && 0 <= k < post.adj(v2).len() implies {
                &&& post.edge_live(#[trigger] post.adj(v2)[k] as int)
                &&& post.touches(post.adj(v2)[k] as int, v2)
            } by {
                assert(pre.vert_live(v2));
                let x = post.adj(v2)[k];
                assert(post.adj(v2).contains(x));
                if v2 == a || v2 == b {
                    assert(x != index);
                    assert(pre.adj(v2).contains(x));
                } else {
                    assert(post.adj(v2) == pre.adj(v2));
                    assert(pre.adj(v2).contains(x));
                    if x == index {
                        let k2 = choose|k2: int|
                            0 <= k2 < pre.adj(v2).len() && pre.adj(v2)[k2] == x;
                        assert(pre.touches(index as int, v2));
                        assert(false);
                    }
                }
                let k3 = choose|k3: int| 0 <= k3 < pre.adj(v2).len() && pre.adj(v2)[k3] == x;
                assert(pre.edge_live(pre.adj(v2)[k3] as int));
                assert(pre.touches(x as int, v2));
            }
            assert forall|e2: int| #[trigger] post.edge_live(e2) implies {
                &&& post.adj(post.edge_at(e2).verts.0 as int).contains(e2 as usize)
                &&& post.adj(post.edge_at(e2).verts.1 as int).contains(e2 as usize)
            } by {
                assert(e2 != index);
                assert(pre.edge_live(e2));
                let va = pre.edge_at(e2).verts.0 as int;
                let vb = pre.edge_at(e2).verts.1 as int;
                assert(pre.adj(va).contains(e2 as usize));
                assert(pre.adj(vb).contains(e2 as usize));
                assert(post.adj(va).contains(e2 as usize));
                assert(post.adj(vb).contains(e2 as usize));
            }
            assert forall|v2: int| #[trigger] post.vert_live(v2) implies post.adj(
                v2,
            ).no_duplicates() by {
                assert(pre.vert_live(v2));
                if v2 != a && v2 != b {
                    assert(post.adj(v2) == pre.adj(v2));
                }
            }
            assert forall|i: int|
                0 <= i < post.edges@.len() && !(#[trigger] post.edges@[i] is Some) implies post
                .empty_e@.contains(i as usize) by {
                if i != index {
                    assert(pre.empty_e@.contains(i as usize));
                    let k = choose|k: int|
                        0 <= k < pre.empty_e@.len() && pre.empty_e@[k] == i as usize;
                    assert(post.empty_e@[k] == i as usize);
                } else {
                    assert(post.empty_e@.last() == index);
                }
            }
            assert(!pre.empty_e@.contains(index)) by {
                if pre.empty_e@.contains(index) {
                    let k = choose|k: int|
                        0 <= k < pre.empty_e@.len() && pre.empty_e@[k] == index;
                    assert(!pre.edge_live(pre.empty_e@[k] as int));
                }
            }
            assert(post.empty_e@.no_duplicates());
            assert forall|v: int|
                0 <= v < pre.verts@.len() && !(pre.vert_live(v) && pre.touches(
                    index as int,
                    v,
                )) implies (#[trigger] post.verts@[v]) == pre.verts@[v] by {
                if v == a || v == b {
                    assert(pre.touches(index as int, v));
                }
            }
        }
        e
    }

    /// The relation between a graph, a merged-in graph, and the result:
    /// the other graph's arenas are appended as a disjoint region, every one
    /// of its indices shifted by the host's arena lengths.
    pub open spec fn merged(pre: Self, other: Self, post: Self) -> bool {
        let vo = pre.verts@.len() as int;
        let eo = pre.edges@.len() as int;
        &&& post.verts@.len() == vo + other.verts@.len()
        &&& post.edges@.len() == eo + other.edges@.len()
        &&& forall|v: int| 0 <= v < vo ==> (#[trigger] post.verts@[v]) == pre.verts@[v]
        &&& forall|e: int| 0 <= e < eo ==> (#[trigger] post.edges@[e]) == pre.edges@[e]
        &&& forall|i: int|
            0 <= i < other.verts@.len() ==> ((#[trigger] post.vert_live(i + vo))
                <==> other.vert_live(i))
        &&& forall|i: int|
            other.vert_live(i) ==> {
                &&& (#[trigger] post.vert_at(i + vo)).index == i + vo
                &&& post.vert_at(i + vo).val == other.vert_at(i).val
                &&& post.adj(i + vo).len() == other.adj(i).len()
                &&& forall|k: int|
                    0 <= k < other.adj(i).len() ==> (#[trigger] post.adj(i + vo)[k]) == other.adj(
                        i,
                    )[k] + eo
            }
        &&& forall|j: int|
            0 <= j < other.edges@.len() ==> ((#[trigger] post.edge_live(j + eo))
                <==> other.edge_live(j))
        &&& forall|j: int|
            other.edge_live(j) ==> {
                &&& (#[trigger] post.edge_at(j + eo)).index == j + eo
                &&& post.edge_at(j + eo).weight == other.edge_at(j).weight
                &&& post.edge_at(j + eo).verts.0 == other.edge_at(j).verts.0 + vo
                &&& post.edge_at(j + eo).verts.1 == other.edge_at(j).verts.1 + vo
            }
        &&& post.empty_v@.len() == pre.empty_v@.len() + other.empty_v@.len()
        &&& forall|k: int|
            0 <= k < pre.empty_v@.len() ==> (#[trigger] post.empty_v@[k]) == pre.empty_v@[k]
        &&& forall|k: int|
            0 <= k < other.empty_v@.len() ==> (#[trigger] post.empty_v@[k + pre.empty_v@.len()])
                == other.empty_v@[k] + vo
        &&& post.empty_e@.len() == pre.empty_e@.len() + other.empty_e@.len()
        &&& forall|k: int|
            0 <= k < pre.empty_e@.len() ==> (#[trigger] post.empty_e@[k]) == pre.empty_e@[k]
        &&& forall|k: int|
            0 <= k < other.empty_e@.len() ==> (#[trigger] post.empty_e@[k + pre.empty_e@.len()])
                == other.empty_e@[k] + eo
    }

    /// Adds another graph to this one as its own disconnected region,
    /// keeping the relative order of its vertices. Returns the mapping from
    /// the other graph's old vertex indices to their new indices here.
    #[verifier::spinoff_prover]
    pub fn merge(&mut self, other: Self) -> (r: Converter)
        requires
            old(self).wf(),
            other.wf(),
            old(self).verts@.len() + other.verts@.len() <= usize::MAX,
            old(self).edges@.len() + other.edges@.len() <= usize::MAX,
        ensures
            final(self).wf(),
            Self::merged(*old(self), other, *final(self)),
            forall|i: int|
                0 <= i < other.verts@.len() ==> (#[trigger] r.spec_conv(i)) == (
                if other.vert_live(i) {
                    Some((i + old(self).verts@.len()) as usize)
                } else {
                    None::<usize>
                }),
            forall|i: int| !(0 <= i < other.verts@.len()) ==> (#[trigger] r.spec_conv(i)) is None,
    {
        let ghost pre = *old(self);
        let ghost go = other;
        let vo = self.verts.len();
        let eo = self.edges.len();
        let mut other = other;
        let mut table: Vec<Option<usize>> = Vec::new();
        let n_v = other.verts.len();
        let n_e = other.edges.len();
        let mut i: usize = 0;
        while i < n_v
            invariant
                go.wf(),
                i <= n_v,
                n_v == go.verts@.len(),
                n_e == go.edges@.len(),
                vo == pre.verts@.len(),
                eo == pre.edges@.len(),
                vo + n_v <= usize::MAX,
                eo + n_e <= usize::MAX,
                other.verts@.len() == n_v,
                forall|z: int| i <= z < n_v ==> (#[trigger] other.verts@[z]) == go.verts@[z],
                other.edges@ == go.edges@,
                other.empty_v@ == go.empty_v@,
                other.empty_e@ == go.empty_e@,
                self.verts@.len() == vo + i,
                self.edges@ == pre.edges@,
                self.empty_v@ == pre.empty_v@,
                self.empty_e@ == pre.empty_e@,
                forall|v: int| 0 <= v < vo ==> (#[trigger] self.verts@[v]) == pre.verts@[v],
                table@.len() == i,
                forall|j: int|
                    0 <= j < i ==> (#[trigger] table@[j]) == (if go.vert_live(j) {
                        Some((j + vo) as usize)
                    } else {
                        None::<usize>
                    }),
                forall|j: int|
                    0 <= j < i ==> ((#[trigger] self.verts@[j + vo]) is Some <==> go.vert_live(
                        j,
                    )),
                forall|j: int|
                    0 <= j < i && go.vert_live(j) ==> {
                        &&& (#[trigger] self.verts@[j + vo])->Some_0.index == j + vo
                        &&& self.verts@[j + vo]->Some_0.val == go.vert_at(j).val
                        &&& self.verts@[j + vo]->Some_0.edges@.len() == go.adj(j).len()
                        &&& forall|k: int|
                            0 <= k < go.adj(j).len() ==> (#[trigger] self.verts@[j
                                + vo]->Some_0.edges@[k]) == go.adj(j)[k] + eo
                    },
            decreases n_v - i,
        {
            let mut tmp: Option<Vertex<V>> = None;
            core::mem::swap(&mut other.verts[i], &mut tmp);
            proof {
                assert(tmp == go.verts@[i as int]);
            }
            match tmp {
                Some(vert) => {
                    let mut vert = vert;
                    let ghost olist = vert.edges@;
                    proof {
                        assert(go.vert_live(i as int));
                        assert(vert == go.vert_at(i as int));
                        assert forall|z: int| 0 <= z < olist.len() implies (#[trigger] olist[z])
                            < n_e by {
                            assert(go.edge_live(go.adj(i as int)[z] as int));
                        }
                    }
                    vert.index = vo + i;
                    let m = vert.edges.len();
                    let mut k: usize = 0;
                    while k < m
                        invariant
                            k <= m,
                            m == vert.edges@.len(),
                            olist.len() == m,
                            eo + n_e <= usize::MAX,
                            forall|z: int| 0 <= z < olist.len() ==> (#[trigger] olist[z]) < n_e,
                            forall|z: int| k <= z < m ==> (#[trigger] vert.edges@[z]) == olist[z],
                            forall|z: int|
                                0 <= z < k ==> (#[trigger] vert.edges@[z]) == olist[z] + eo,
                            vert.index == vo + i,
                            vert.val == go.vert_at(i as int).val,
                        decreases m - k,
                    {
                        let e = vert.edges[k];
                        proof {
                            assert(olist[k as int] < n_e);
                        }
                        vert.edges[k] = eo + e;
                        k = k + 1;
                    }
                    self.verts.push(Some(vert));
                    table.push(Some(vo + i));
                },
                None => {
                    self.verts.push(None);
                    table.push(None);
                },
            }
            i = i + 1;
        }
        let mut j: usize = 0;
        while j < n_e
            invariant
                go.wf(),
                j <= n_e,
                n_e == go.edges@.len(),
                n_v == go.verts@.len(),
                vo == pre.verts@.len(),
                eo == pre.edges@.len(),
                vo + n_v <= usize::MAX,
                eo + n_e <= usize::MAX,
                other.edges@.len() == n_e,
                forall|z: int| j <= z < n_e ==> (#[trigger] other.edges@[z]) == go.edges@[z],
                other.empty_v@ == go.empty_v@,
                other.empty_e@ == go.empty_e@,
                self.verts@.len() == vo + n_v,
                self.edges@.len() == eo + j,
                self.empty_v@ == pre.empty_v@,
                self.empty_e@ == pre.empty_e@,
                forall|v: int| 0 <= v < vo ==> (#[trigger] self.verts@[v]) == pre.verts@[v],
                forall|e: int| 0 <= e < eo ==> (#[trigger] self.edges@[e]) == pre.edges@[e],
                table@.len() == n_v,
                forall|z: int|
                    0 <= z < n_v ==> (#[trigger] table@[z]) == (if go.vert_live(z) {
                        Some((z + vo) as usize)
                    } else {
                        None::<usize>
                    }),
                forall|z: int|
                    0 <= z < n_v ==> ((#[trigger] self.verts@[z + vo]) is Some <==> go.vert_live(
                        z,
                    )),
                forall|z: int|
                    0 <= z < n_v && go.vert_live(z) ==> {
                        &&& (#[trigger] self.verts@[z + vo])->Some_0.index == z + vo
                        &&& self.verts@[z + vo]->Some_0.val == go.vert_at(z).val
                        &&& self.verts@[z + vo]->Some_0.edges@.len() == go.adj(z).len()
                        &&& forall|k: int|
                            0 <= k < go.adj(z).len() ==> (#[trigger] self.verts@[z
                                + vo]->Some_0.edges@[k]) == go.adj(z)[k] + eo
                    },
                forall|z: int|
                    0 <= z < j ==> ((#[trigger] self.edges@[z + eo]) is Some <==> go.edge_live(
                        z,
                    )),
                forall|z: int|
                    0 <= z < j && go.edge_live(z) ==> {
                        &&& (#[trigger] self.edges@[z + eo])->Some_0.index == z + eo
                        &&& self.edges@[z + eo]->Some_0.weight == go.edge_at(z).weight
                        &&& self.edges@[z + eo]->Some_0.verts.0 == go.edge_at(z).verts.0 + vo
                        &&& self.edges@[z + eo]->Some_0.verts.1 == go.edge_at(z).verts.1 + vo
                    },
            decreases n_e - j,
        {
            let mut tmp: Option<Edge<E>> = None;
            core::mem::swap(&mut other.edges[j], &mut tmp);
            proof {
                assert(tmp == go.edges@[j as int]);
            }
            match tmp {
                Some(edge) => {
                    let mut edge = edge;
                    proof {
                        assert(go.edge_live(j as int));
                        assert(edge == go.edge_at(j as int));
                        assert(go.vert_live(go.edge_at(j as int).verts.0 as int));
                        assert(go.vert_live(go.edge_at(j as int).verts.1 as int));
                        assert(go.edge_at(j as int).verts.0 < n_v);
                        assert(go.edge_at(j as int).verts.1 < n_v);
                    }
                    edge.index = eo + j;
                    edge.verts = (vo + edge.verts.0, vo + edge.verts.1);
                    self.edges.push(Some(edge));
                },
                None => {
                    self.edges.push(None);
                },
            }
            j = j + 1;
        }
        let ghost mid = *self;
        let mut k: usize = 0;
        let nf_v = other.empty_v.len();
        proof {
            assert(other.empty_v@ == go.empty_v@);
            assert forall|z: int| 0 <= z < go.empty_v@.len() implies (
            #[trigger] go.empty_v@[z] as int) < n_v by {}
        }
        while k < nf_v
            invariant
                k <= nf_v,
                nf_v == go.empty_v@.len(),
                other.empty_v@ == go.empty_v@,
                vo == pre.verts@.len(),
                vo + n_v <= usize::MAX,
                n_v == go.verts@.len(),
                forall|z: int| 0 <= z < nf_v ==> (#[trigger] go.empty_v@[z] as int) < n_v,
                self.verts == mid.verts,
                self.edges == mid.edges,
                self.empty_e@ == mid.empty_e@,
                self.empty_v@.len() == pre.empty_v@.len() + k,
                forall|z: int|
                    0 <= z < pre.empty_v@.len() ==> (#[trigger] self.empty_v@[z])
                        == pre.empty_v@[z],
                forall|z: int|
                    0 <= z < k ==> (#[trigger] self.empty_v@[z + pre.empty_v@.len()])
                        == go.empty_v@[z] + vo,
            decreases nf_v - k,
        {
            let x = other.empty_v[k];
            self.empty_v.push(vo + x);
            k = k + 1;
        }
        let mut k2: usize = 0;
        let nf_e = other.empty_e.len();
        proof {
            assert(other.empty_e@ == go.empty_e@);
            assert forall|z: int| 0 <= z < go.empty_e@.len() implies (
            #[trigger] go.empty_e@[z] as int) < n_e by {}
        }
        while k2 < nf_e
            invariant
                k2 <= nf_e,
                nf_e == go.empty_e@.len(),
                other.empty_e@ == go.empty_e@,
                eo == pre.edges@.len(),
                eo + n_e <= usize::MAX,
                n_e == go.edges@.len(),
                forall|z: int| 0 <= z < nf_e ==> (#[trigger] go.empty_e@[z] as int) < n_e,
                self.verts == mid.verts,
                self.edges == mid.edges,
                self.empty_v@.len() == pre.empty_v@.len() + nf_v,
                forall|z: int|
                    0 <= z < pre.empty_v@.len() ==> (#[trigger] self.empty_v@[z])
                        == pre.empty_v@[z],
                forall|z: int|
                    0 <= z < nf_v ==> (#[trigger] self.empty_v@[z + pre.empty_v@.len()])
                        == go.empty_v@[z] + vo,
                self.empty_e@.len() == pre.empty_e@.len() + k2,
                forall|z: int|
                    0 <= z < pre.empty_e@.len() ==> (#[trigger] self.empty_e@[z])
                        == pre.empty_e@[z],
                forall|z: int|
                    0 <= z < k2 ==> (#[trigger] self.empty_e@[z + pre.empty_e@.len()])
                        == go.empty_e@[z] + eo,
            decreases nf_e - k2,
        {
            let x = other.empty_e[k2];
            self.empty_e.push(eo + x);
            k2 = k2 + 1;
        }
        proof {
            let post = *self;
            assert forall|i2: int| 0 <= i2 < go.verts@.len() implies ((#[trigger] post.vert_live(
                i2 + pre.verts@.len(),
            )) <==> go.vert_live(i2)) by {
                assert((self.verts@[i2 + vo] is Some) <==> go.vert_live(i2));
            }
            assert forall|i2: int| go.vert_live(i2) implies {
                &&& (#[trigger] post.vert_at(i2 + pre.verts@.len())).index == i2
                    + pre.verts@.len()
                &&& post.vert_at(i2 + pre.verts@.len()).val == go.vert_at(i2).val
                &&& post.adj(i2 + pre.verts@.len()).len() == go.adj(i2).len()
                &&& forall|k3: int|
                    0 <= k3 < go.adj(i2).len() ==> (#[trigger] post.adj(
                        i2 + pre.verts@.len(),
                    )[k3]) == go.adj(i2)[k3] + pre.edges@.len()
            } by {
                assert((self.verts@[i2 + vo]) is Some);
            }
            assert forall|j2: int| 0 <= j2 < go.edges@.len() implies ((#[trigger] post.edge_live(
                j2 + pre.edges@.len(),
            )) <==> go.edge_live(j2)) by {
                assert((self.edges@[j2 + eo] is Some) <==> go.edge_live(j2));
            }
            assert forall|j2: int| go.edge_live(j2) implies {
                &&& (#[trigger] post.edge_at(j2 + pre.edges@.len())).index == j2
                    + pre.edges@.len()
                &&& post.edge_at(j2 + pre.edges@.len()).weight == go.edge_at(j2).weight
                &&& post.edge_at(j2 + pre.edges@.len()).verts.0 == go.edge_at(j2).verts.0
                    + pre.verts@.len()
                &&& post.edge_at(j2 + pre.edges@.len()).verts.1 == go.edge_at(j2).verts.1
                    + pre.verts@.len()
            } by {
                assert((self.edges@[j2 + eo]) is Some);
            }
            assert(Self::merged(pre, go, post));
            lemma_merge_wf(pre, go, post);
        }
        Converter { table }
    }

    /// Exclusive access to the vertex at live index `i`.
    pub fn vert_mut(&mut self, i: usize) -> (r: &mut Vertex<V>)
        requires
            old(self).vert_live(i as int),
        ensures
            *r == old(self).vert_at(i as int),
            final(self).verts@ == old(self).verts@.update(i as int, Some(*final(r))),
            final(self).edges == old(self).edges,
            final(self).empty_v == old(self).empty_v,
            final(self).empty_e == old(self).empty_e,
    {
        let slot = &mut self.verts[i];
        match slot.as_mut() {
            Some(v) => v,
            None => vstd::pervasive::unreached(),
        }
    }

    /// Exclusive access to the edge at live index `i`.
    pub fn edge_mut(&mut self, i: usize) -> (r: &mut Edge<E>)
        requires
            old(self).edge_live(i as int),
        ensures
            *r == old(self).edge_at(i as int),
            final(self).edges@ == old(self).edges@.update(i as int, Some(*final(r))),
            final(self).verts == old(self).verts,
            final(self).empty_v == old(self).empty_v,
            final(self).empty_e == old(self).empty_e,
    {
        let slot = &mut self.edges[i];
        match slot.as_mut() {
            Some(e) => e,
            None => vstd::pervasive::unreached(),
        }
    }
}

} // verus!
