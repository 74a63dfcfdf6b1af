use vstd::prelude::*;

use crate::Directed;
use crate::Graph;
use crate::edge::Edge;
use crate::vert::Vertex;

verus! {

/// Edge `e` of graph `g` arrives at vertex `v`.
pub open spec fn is_in_edge<V>(g: Graph<V, (), Directed>, v: int, e: usize) -> bool {
    g.edge_at(e as int).verts.1 as int == v
}

/// Edge `e` of graph `g` leaves vertex `v`.
pub open spec fn is_out_edge<V>(g: Graph<V, (), Directed>, v: int, e: usize) -> bool {
    g.edge_at(e as int).verts.0 as int == v
}

/// The entries of `s` that arrive at `v`, in order.
pub open spec fn in_filter<V>(g: Graph<V, (), Directed>, v: int, s: Seq<usize>) -> Seq<usize>
    decreases s.len(),
{
    if s.len() == 0 {
        Seq::<usize>::empty()
    } else if is_in_edge(g, v, s.last()) {
        in_filter(g, v, s.drop_last()).push(s.last())
    } else {
        in_filter(g, v, s.drop_last())
    }
}

/// The entries of `s` that leave `v`, in order.
pub open spec fn out_filter<V>(g: Graph<V, (), Directed>, v: int, s: Seq<usize>) -> Seq<usize>
    decreases s.len(),
{
    if s.len() == 0 {
        Seq::<usize>::empty()
    } else if is_out_edge(g, v, s.last()) {
        out_filter(g, v, s.drop_last()).push(s.last())
    } else {
        out_filter(g, v, s.drop_last())
    }
}

/// The targets of the edges listed in `s`, in order.
pub open spec fn targets_of<V>(g: Graph<V, (), Directed>, s: Seq<usize>) -> Seq<usize> {
    Seq::<usize>::new(s.len(), |i: int| g.edge_at(s[i] as int).verts.1)
}

/// The incoming entries of vertex `v`'s incident-edge list.
pub open spec fn in_list<V>(g: Graph<V, (), Directed>, v: int) -> Seq<usize> {
    in_filter(g, v, g.adj(v))
}

/// The outgoing entries of vertex `v`'s incident-edge list.
pub open spec fn out_list<V>(g: Graph<V, (), Directed>, v: int) -> Seq<usize> {
    out_filter(g, v, g.adj(v))
}

/// The children of vertex `v`: the targets of its outgoing edges, in
/// incident-list order.
pub open spec fn kids_of<V>(g: Graph<V, (), Directed>, v: int) -> Seq<usize> {
    targets_of(g, out_list(g, v))
}

/// How `in_filter` and `out_filter` treat a pushed entry.
proof fn lemma_filters_push<V>(g: Graph<V, (), Directed>, v: int, s: Seq<usize>, x: usize)
    ensures
        in_filter(g, v, s.push(x)) == (if is_in_edge(g, v, x) {
            in_filter(g, v, s).push(x)
        } else {
            in_filter(g, v, s)
        }),
        out_filter(g, v, s.push(x)) == (if is_out_edge(g, v, x) {
            out_filter(g, v, s).push(x)
        } else {
            out_filter(g, v, s)
        }),
{
    assert(s.push(x).drop_last() =~= s);
    assert(s.push(x).last() == x);
}

/// Two graphs whose edges agree on every entry of `s` filter `s` alike.
proof fn lemma_filters_agree<V>(
    g1: Graph<V, (), Directed>,
    g2: Graph<V, (), Directed>,
    v: int,
    s: Seq<usize>,
)
    requires
        forall|j: int|
            0 <= j < s.len() ==> g1.edge_at(#[trigger] s[j] as int) == g2.edge_at(s[j] as int),
    ensures
        in_filter(g1, v, s) == in_filter(g2, v, s),
        out_filter(g1, v, s) == out_filter(g2, v, s),
    decreases s.len(),
{
    if s.len() > 0 {
        assert(s[s.len() - 1] == s.last());
        lemma_filters_agree(g1, g2, v, s.drop_last());
    }
}

/// Everything a filtered list holds came from the list and passes the test.
proof fn lemma_filters_elems<V>(g: Graph<V, (), Directed>, v: int, s: Seq<usize>)
    ensures
        forall|x: usize|
            #[trigger] in_filter(g, v, s).contains(x) <==> (s.contains(x) && is_in_edge(g, v, x)),
        forall|x: usize|
            #[trigger] out_filter(g, v, s).contains(x) <==> (s.contains(x) && is_out_edge(
                g,
                v,
                x,
            )),
        in_filter(g, v, s).len() <= s.len(),
        out_filter(g, v, s).len() <= s.len(),
    decreases s.len(),
{
    if s.len() > 0 {
        let rest = s.drop_last();
        lemma_filters_elems(g, v, rest);
        assert(rest.push(s.last()) =~= s);
        assert forall|x: usize| s.contains(x) implies (rest.contains(x) || x == s.last()) by {
            let j = choose|j: int| 0 <= j < s.len() && s[j] == x;
            if j < s.len() - 1 {
                assert(rest[j] == x);
            }
        }
        assert forall|x: usize| rest.contains(x) implies s.contains(x) by {
            let j = choose|j: int| 0 <= j < rest.len() && rest[j] == x;
            assert(s[j] == x);
        }
        assert(s.contains(s.last())) by {
            assert(s[s.len() - 1] == s.last());
        }
        assert forall|x: usize| #[trigger] in_filter(g, v, s).contains(x) implies (s.contains(x)
            && is_in_edge(g, v, x)) by {
            if in_filter(g, v, s).contains(x) {
                let f = in_filter(g, v, rest);
                if is_in_edge(g, v, s.last()) {
                    let j = choose|j: int|
                        0 <= j < in_filter(g, v, s).len() && in_filter(g, v, s)[j] == x;
                    if j < f.len() {
                        assert(f.contains(x)) by {
                            assert(f[j] == x);
                        }
                    }
                }
            }
        }
        assert forall|x: usize| #[trigger] out_filter(g, v, s).contains(x) implies (s.contains(x)
            && is_out_edge(g, v, x)) by {
            if out_filter(g, v, s).contains(x) {
                let f = out_filter(g, v, rest);
                if is_out_edge(g, v, s.last()) {
                    let j = choose|j: int|
                        0 <= j < out_filter(g, v, s).len() && out_filter(g, v, s)[j] == x;
                    if j < f.len() {
                        assert(f.contains(x)) by {
                            assert(f[j] == x);
                        }
                    }
                }
            }
        }
        assert forall|x: usize| s.contains(x) && is_in_edge(g, v, x) implies in_filter(
            g,
            v,
            s,
        ).contains(x) by {
            if x == s.last() {
                assert(in_filter(g, v, s).last() == x);
                assert(in_filter(g, v, s).contains(x)) by {
                    assert(in_filter(g, v, s)[in_filter(g, v, s).len() - 1] == x);
                }
            } else {
                assert(rest.contains(x)) by {
                    let j = choose|j: int| 0 <= j < s.len() && s[j] == x;
                    assert(j < s.len() - 1);
                    assert(rest[j] == x);
                }
                assert(in_filter(g, v, rest).contains(x));
                let j = choose|j: int|
                    0 <= j < in_filter(g, v, rest).len() && in_filter(g, v, rest)[j] == x;
                assert(in_filter(g, v, s)[j] == x);
            }
        }
        assert forall|x: usize| s.contains(x) && is_out_edge(g, v, x) implies out_filter(
            g,
            v,
            s,
        ).contains(x) by {
            if x == s.last() {
                assert(out_filter(g, v, s)[out_filter(g, v, s).len() - 1] == x);
            } else {
                assert(rest.contains(x)) by {
                    let j = choose|j: int| 0 <= j < s.len() && s[j] == x;
                    assert(j < s.len() - 1);
                    assert(rest[j] == x);
                }
                assert(out_filter(g, v, rest).contains(x));
                let j = choose|j: int|
                    0 <= j < out_filter(g, v, rest).len() && out_filter(g, v, rest)[j] == x;
                assert(out_filter(g, v, s)[j] == x);
            }
        }
    }
}

/// Two lists whose entries pass the direction tests alike filter to the
/// same lengths.
proof fn lemma_filters_shift<V>(
    g1: Graph<V, (), Directed>,
    v1: int,
    s1: Seq<usize>,
    g2: Graph<V, (), Directed>,
    v2: int,
    s2: Seq<usize>,
)
    requires
        s2.len() == s1.len(),
        forall|k: int|
            0 <= k < s1.len() ==> ((is_in_edge(g2, v2, #[trigger] s2[k]) <==> is_in_edge(
                g1,
                v1,
                s1[k],
            )) && (is_out_edge(g2, v2, s2[k]) <==> is_out_edge(g1, v1, s1[k]))),
    ensures
        in_filter(g2, v2, s2).len() == in_filter(g1, v1, s1).len(),
        out_filter(g2, v2, s2).len() == out_filter(g1, v1, s1).len(),
    decreases s1.len(),
{
    if s1.len() > 0 {
        assert(s1[s1.len() - 1] == s1.last());
        assert(s2[s2.len() - 1] == s2.last());
        assert forall|k: int|
            0 <= k < s1.drop_last().len() implies ((is_in_edge(
                g2,
                v2,
                #[trigger] s2.drop_last()[k],
            ) <==> is_in_edge(g1, v1, s1.drop_last()[k])) && (is_out_edge(
                g2,
                v2,
                s2.drop_last()[k],
            ) <==> is_out_edge(g1, v1, s1.drop_last()[k]))) by {
            assert(s2.drop_last()[k] == s2[k]);
            assert(s1.drop_last()[k] == s1[k]);
        }
        lemma_filters_shift(g1, v1, s1.drop_last(), g2, v2, s2.drop_last());
    }
}

/// A list none of whose entries arrives at `v` has an empty incoming filter.
proof fn lemma_in_filter_all_neg<V>(g: Graph<V, (), Directed>, v: int, s: Seq<usize>)
    requires
        forall|j: int| 0 <= j < s.len() ==> !is_in_edge(g, v, #[trigger] s[j]),
    ensures
        in_filter(g, v, s).len() == 0,
    decreases s.len(),
{
    if s.len() > 0 {
        assert(s[s.len() - 1] == s.last());
        lemma_in_filter_all_neg(g, v, s.drop_last());
    }
}

/// The first entry of a list that arrives at `v` heads its incoming filter.
proof fn lemma_in_filter_first<V>(g: Graph<V, (), Directed>, v: int, s: Seq<usize>, k: int)
    requires
        0 <= k < s.len(),
        is_in_edge(g, v, s[k]),
        forall|j: int| 0 <= j < k ==> !is_in_edge(g, v, #[trigger] s[j]),
    ensures
        in_filter(g, v, s).len() > 0,
        in_filter(g, v, s)[0] == s[k],
    decreases s.len(),
{
    if k == s.len() - 1 {
        lemma_in_filter_all_neg(g, v, s.drop_last());
        assert(s[k] == s.last());
        assert(in_filter(g, v, s) == in_filter(g, v, s.drop_last()).push(s.last()));
    } else {
        lemma_in_filter_first(g, v, s.drop_last(), k);
        assert(s[s.len() - 1] == s.last());
    }
}

/// Filtering keeps a duplicate-free list duplicate-free.
proof fn lemma_out_filter_nodup<V>(g: Graph<V, (), Directed>, v: int, s: Seq<usize>)
    requires
        s.no_duplicates(),
    ensures
        out_filter(g, v, s).no_duplicates(),
    decreases s.len(),
{
    if s.len() > 0 {
        let rest = s.drop_last();
        assert(rest.no_duplicates()) by {
            assert forall|i: int, j: int|
                0 <= i < rest.len() && 0 <= j < rest.len() && i != j implies rest[i]
                != rest[j] by {
                assert(rest[i] == s[i]);
                assert(rest[j] == s[j]);
            }
        }
        lemma_out_filter_nodup(g, v, rest);
        if is_out_edge(g, v, s.last()) {
            let x = s.last();
            let f = out_filter(g, v, rest);
            assert(!f.contains(x)) by {
                if f.contains(x) {
                    lemma_filters_elems(g, v, rest);
                    let j = choose|j: int| 0 <= j < rest.len() && rest[j] == x;
                    assert(s[j] == s[s.len() - 1] && j != s.len() - 1);
                }
            }
            assert forall|i: int, j: int|
                0 <= i < f.push(x).len() && 0 <= j < f.push(x).len() && i != j implies f.push(
                x,
            )[i] != f.push(x)[j] by {
                if i < f.len() {
                    assert(f.contains(f[i])) by {
                        assert(f[i] == f[i]);
                    }
                }
                if j < f.len() {
                    assert(f.contains(f[j])) by {
                        assert(f[j] == f[j]);
                    }
                }
            }
        }
    }
}

/// A rooted tree stored in a directed graph: the root is vertex 0 and has no
/// incoming edge; every other live vertex has exactly one incoming edge, the
/// edge that connects it to its parent.
pub struct Tree<V>(pub Graph<V, (), Directed>);

impl<V> Tree<V> {
    /// The incoming entries of vertex `v`'s incident-edge list.
    pub open spec fn in_list(self, v: int) -> Seq<usize> {
        in_list(self.0, v)
    }

    /// The outgoing entries of vertex `v`'s incident-edge list.
    pub open spec fn out_list(self, v: int) -> Seq<usize> {
        out_list(self.0, v)
    }

    /// The children of vertex `v`, in edge-insertion order.
    pub open spec fn children_of(self, v: int) -> Seq<usize> {
        kids_of(self.0, v)
    }

    /// The edge joining live non-root vertex `c` to its parent.
    pub open spec fn parent_edge(self, c: int) -> usize {
        self.in_list(c)[0]
    }

    /// The parent of live non-root vertex `c`.
    pub open spec fn parent_of(self, c: int) -> usize {
        self.0.edge_at(self.parent_edge(c) as int).verts.0
    }

    /// Well-formedness: the underlying graph is well-formed, the root lives
    /// at index 0 with no incoming edge, and every other live vertex has
    /// exactly one incoming edge.
    pub open spec fn wf(self) -> bool {
        &&& self.0.wf()
        &&& self.0.verts@.len() >= 1
        &&& self.0.vert_live(0)
        &&& self.in_list(0).len() == 0
        &&& forall|v: int| #[trigger] self.0.vert_live(v) && v != 0 ==> self.in_list(v).len() == 1
    }

    /// A singleton tree holding only the root.
    pub fn new(root: V) -> (r: Self)
        ensures
            r.wf(),
            r.0.verts@.len() == 1,
            r.0.vert_at(0).val == root,
            r.0.edges@.len() == 0,
            r.children_of(0).len() == 0,
    {
        let mut g: Graph<V, (), Directed> = Graph::new();
        g.add_vert(root);
        let t = Tree(g);
        proof {
            assert(t.0.adj(0).len() == 0);
        }
        t
    }

    /// Appends a new leaf under `parent` and returns its index.
    pub fn add_child(&mut self, parent: usize, child: V) -> (r: usize)
        requires
            old(self).wf(),
            old(self).0.vert_live(parent as int),
        ensures
            final(self).wf(),
            !old(self).0.vert_live(r as int),
            final(self).0.vert_live(r as int),
            final(self).0.vert_at(r as int).val == child,
            r != 0,
            final(self).parent_of(r as int) == parent,
            final(self).children_of(r as int).len() == 0,
            final(self).children_of(parent as int) == old(self).children_of(
                parent as int,
            ).push(r),
            final(self).0.verts@.len() >= old(self).0.verts@.len(),
            forall|w: int|
                old(self).0.vert_live(w) ==> final(self).0.vert_live(w)
                    && (#[trigger] final(self).0.vert_at(w)).val == old(self).0.vert_at(w).val,
            forall|w: int|
                old(self).0.vert_live(w) && w != parent
                    ==> (#[trigger] final(self).children_of(w)) == old(self).children_of(w),
            forall|w: int|
                old(self).0.vert_live(w) && w != 0
                    ==> (#[trigger] final(self).parent_of(w)) == old(self).parent_of(w)
                    && final(self).parent_edge(w) == old(self).parent_edge(w),
    {
        let ghost pre = *self;
        let child_i = self.0.add_vert(child);
        let ghost mid = *self;
        proof {
            assert(mid.0.vert_live(parent as int));
            assert(child_i != 0) by {
                assert(pre.0.vert_live(0));
            }
        }
        let ne = self.0.add_edge(parent, (), child_i);
        proof {
            let post = *self;
            let g0 = pre.0;
            let g2 = post.0;
            assert(parent != child_i);
            assert(g2.adj(child_i as int) =~= Seq::<usize>::empty().push(ne)) by {
                assert(mid.0.adj(child_i as int).len() == 0);
                assert(g2.adj(child_i as int) == mid.0.adj(child_i as int).insert(0, ne));
                assert(mid.0.adj(child_i as int).insert(0, ne) =~= Seq::<usize>::empty().push(
                    ne,
                ));
            }
            assert(g2.adj(parent as int) =~= g0.adj(parent as int).push(ne)) by {
                assert(mid.0.adj(parent as int) == g0.adj(parent as int));
                assert(g2.adj(parent as int) == mid.0.adj(parent as int).insert(
                    mid.0.adj(parent as int).len() as int,
                    ne,
                ));
                mid.0.adj(parent as int).insert_ensures(
                    mid.0.adj(parent as int).len() as int,
                    ne,
                );
            }
            // old entries keep their edge content
            assert forall|w: int| #[trigger] g0.vert_live(w) implies {
                &&& g2.vert_live(w)
                &&& forall|j: int|
                    0 <= j < g0.adj(w).len() ==> g0.edge_at((#[trigger] g0.adj(w)[j]) as int)
                        == g2.edge_at(g0.adj(w)[j] as int)
            } by {
                assert forall|j: int|
                    0 <= j < g0.adj(w).len() implies g0.edge_at(
                    (#[trigger] g0.adj(w)[j]) as int,
                ) == g2.edge_at(g0.adj(w)[j] as int) by {
                    assert(g0.edge_live(g0.adj(w)[j] as int));
                    assert(g0.adj(w)[j] != ne);
                }
            }
            assert forall|w: int| #[trigger] g0.vert_live(w) implies {
                &&& in_list(g2, w) == in_list(g0, w)
                &&& out_list(g2, w) == (if w == parent {
                    out_list(g0, w).push(ne)
                } else {
                    out_list(g0, w)
                })
            } by {
                lemma_filters_agree(g0, g2, w, g0.adj(w));
                if w == parent {
                    lemma_filters_push(g2, w, g0.adj(w), ne);
                    assert(!is_in_edge(g2, w, ne));
                    assert(is_out_edge(g2, w, ne));
                    assert(in_filter(g2, w, g0.adj(w).push(ne)) == in_filter(g2, w, g0.adj(w)));
                } else {
                    assert(g2.adj(w) == g0.adj(w));
                }
            }
            assert(in_list(g2, child_i as int) =~= Seq::<usize>::empty().push(ne)) by {
                lemma_filters_push(g2, child_i as int, Seq::<usize>::empty(), ne);
                assert(is_in_edge(g2, child_i as int, ne));
            }
            assert(out_list(g2, child_i as int) =~= Seq::<usize>::empty()) by {
                lemma_filters_push(g2, child_i as int, Seq::<usize>::empty(), ne);
                assert(!is_out_edge(g2, child_i as int, ne));
            }
            // children lists
            assert(post.children_of(parent as int) =~= pre.children_of(parent as int).push(
                child_i,
            )) by {
                lemma_filters_elems(g0, parent as int, g0.adj(parent as int));
                assert forall|j: int|
                    0 <= j < out_list(g0, parent as int).len() implies g2.edge_at(
                    (#[trigger] out_list(g0, parent as int)[j]) as int,
                ).verts.1 == g0.edge_at(out_list(g0, parent as int)[j] as int).verts.1 by {
                    let x = out_list(g0, parent as int)[j];
                    assert(out_list(g0, parent as int).contains(x)) by {
                        assert(out_list(g0, parent as int)[j] == x);
                    }
                    assert(g0.adj(parent as int).contains(x));
                    let jj = choose|jj: int|
                        0 <= jj < g0.adj(parent as int).len() && g0.adj(parent as int)[jj] == x;
                    assert(g0.edge_live(g0.adj(parent as int)[jj] as int));
                    assert(x != ne);
                }
                assert(g2.edge_at(ne as int).verts.1 == child_i);
            }
            assert(post.children_of(child_i as int) =~= Seq::<usize>::empty());
            // children of other vertices unchanged
            assert forall|w: int| g0.vert_live(w) && w != parent implies (
            #[trigger] post.children_of(w)) == pre.children_of(w) by {
                assert(out_list(g2, w) == out_list(g0, w));
                lemma_filters_elems(g0, w, g0.adj(w));
                assert(targets_of(g2, out_list(g0, w)) =~= targets_of(g0, out_list(g0, w))) by {
                    assert forall|j: int|
                        0 <= j < out_list(g0, w).len() implies g2.edge_at(
                        (#[trigger] out_list(g0, w)[j]) as int,
                    ).verts.1 == g0.edge_at(out_list(g0, w)[j] as int).verts.1 by {
                        let x = out_list(g0, w)[j];
                        assert(out_list(g0, w).contains(x)) by {
                            assert(out_list(g0, w)[j] == x);
                        }
                        assert(g0.adj(w).contains(x));
                        let jj = choose|jj: int|
                            0 <= jj < g0.adj(w).len() && g0.adj(w)[jj] == x;
                        assert(g0.edge_live(g0.adj(w)[jj] as int));
                        assert(x != ne);
                    }
                }
            }
            // tree well-formedness
            assert forall|v: int| #[trigger] g2.vert_live(v) && v != 0 implies post.in_list(
                v,
            ).len() == 1 by {
                if v != child_i {
                    assert(g0.vert_live(v));
                    assert(in_list(g2, v) == in_list(g0, v));
                }
            }
            assert(post.in_list(0).len() == 0) by {
                assert(in_list(g2, 0) == in_list(g0, 0));
            }
            assert(post.parent_edge(child_i as int) == ne);
            assert(post.parent_of(child_i as int) == parent);
            assert forall|w: int| g0.vert_live(w) && w != 0 implies (#[trigger] post.parent_of(
                w,
            )) == pre.parent_of(w) && post.parent_edge(w) == pre.parent_edge(w) by {
                assert(in_list(g2, w) == in_list(g0, w));
                assert(pre.in_list(w).len() == 1);
                let x = pre.parent_edge(w);
                lemma_filters_elems(g0, w, g0.adj(w));
                assert(in_list(g0, w).contains(x)) by {
                    assert(in_list(g0, w)[0] == x);
                }
                assert(g0.adj(w).contains(x));
                let jj = choose|jj: int| 0 <= jj < g0.adj(w).len() && g0.adj(w)[jj] == x;
                assert(g0.edge_live(g0.adj(w)[jj] as int));
                assert(x != ne);
            }
        }
        child_i
    }

    /// The parent of `child`, or the designated no-parent signal for the
    /// root: the root has no parent, and asking for one is answered with
    /// `Err` rather than a fabricated index.
    pub fn parent(&self, child: usize) -> (r: Result<usize, usize>)
        requires
            self.wf(),
            self.0.vert_live(child as int),
        ensures
            child == 0 ==> (r matches Err(z) && z == 0),
            child != 0 ==> (r matches Ok(p) && p == self.parent_of(child as int)),
    {
        if child == 0 {
            return Err(0);
        }
        let list_len = self.0.vert(child).edges.len();
        let mut k: usize = 0;
        while k < list_len
            invariant
                self.wf(),
                self.0.vert_live(child as int),
                child != 0,
                k <= list_len,
                list_len == self.0.adj(child as int).len(),
                forall|j: int|
                    0 <= j < k ==> !is_in_edge(
                        self.0,
                        child as int,
                        #[trigger] self.0.adj(child as int)[j],
                    ),
            decreases list_len - k,
        {
            let ei = self.0.vert(child).edges[k];
            proof {
                assert(self.0.adj(child as int)[k as int] == ei);
                assert(self.0.edge_live(ei as int));
            }
            let e = self.0.edge(ei);
            if e.verts.1 == child {
                proof {
                    lemma_in_filter_first(
                        self.0,
                        child as int,
                        self.0.adj(child as int),
                        k as int,
                    );
                    assert(self.parent_edge(child as int) == ei);
                }
                return Ok(e.verts.0);
            }
            k = k + 1;
        }
        proof {
            lemma_in_filter_all_neg(self.0, child as int, self.0.adj(child as int));
            assert(self.in_list(child as int).len() == 1);
            assert(false);
        }
        vstd::pervasive::unreached()
    }

    /// Law: in a well-formed tree, every live non-root node stands in the
    /// child list of its parent exactly once.
    pub proof fn lemma_child_of_parent(t: Tree<V>, n: usize)
        requires
            t.wf(),
            t.0.vert_live(n as int),
            n != 0,
        ensures
            exists|q: int|
                {
                    &&& 0 <= q < t.children_of(t.parent_of(n as int) as int).len()
                    &&& t.children_of(t.parent_of(n as int) as int)[q] == n
                    &&& forall|j: int|
                        0 <= j < t.children_of(t.parent_of(n as int) as int).len() && j != q
                            ==> t.children_of(t.parent_of(n as int) as int)[j] != n
                },
    {
        let g = t.0;
        assert(t.in_list(n as int).len() == 1);
        let ep = t.parent_edge(n as int);
        lemma_filters_elems(g, n as int, g.adj(n as int));
        assert(t.in_list(n as int).contains(ep)) by {
            assert(t.in_list(n as int)[0] == ep);
        }
        assert(g.adj(n as int).contains(ep) && is_in_edge(g, n as int, ep));
        assert(g.edge_live(ep as int)) by {
            let k = choose|k: int| 0 <= k < g.adj(n as int).len() && g.adj(n as int)[k] == ep;
            assert(g.edge_live(g.adj(n as int)[k] as int));
        }
        let p = t.parent_of(n as int);
        assert(g.vert_live(p as int));
        assert(g.adj(p as int).contains(ep));
        lemma_filters_elems(g, p as int, g.adj(p as int));
        assert(is_out_edge(g, p as int, ep));
        assert(out_list(g, p as int).contains(ep));
        let q = choose|q: int|
            0 <= q < out_list(g, p as int).len() && out_list(g, p as int)[q] == ep;
        let kids = t.children_of(p as int);
        assert(kids[q] == n);
        assert forall|j: int| 0 <= j < kids.len() && j != q implies kids[j] != n by {
            if kids[j] == n {
                let e2 = out_list(g, p as int)[j];
                lemma_out_filter_nodup(g, p as int, g.adj(p as int));
                assert(e2 != ep);
                assert(out_list(g, p as int).contains(e2)) by {
                    assert(out_list(g, p as int)[j] == e2);
                }
                assert(g.adj(p as int).contains(e2) && is_out_edge(g, p as int, e2));
                assert(g.edge_live(e2 as int)) by {
                    let k2 = choose|k2: int|
                        0 <= k2 < g.adj(p as int).len() && g.adj(p as int)[k2] == e2;
                    assert(g.edge_live(g.adj(p as int)[k2] as int));
                }
                assert(g.edge_at(e2 as int).verts.1 == n);
                assert(g.adj(n as int).contains(e2));
                assert(is_in_edge(g, n as int, e2));
                assert(t.in_list(n as int).contains(e2));
                let z = choose|z: int|
                    0 <= z < t.in_list(n as int).len() && t.in_list(n as int)[z] == e2;
                assert(z == 0);
                assert(e2 == ep);
            }
        }
    }

    /// Removes a node, other than the root, and gives ownership of its
    /// children to its former parent: an edge from the parent to each child
    /// is spliced in starting at the removed node's former position among
    /// the parent's incident edges. Returns the removed node and the edges
    /// removed with it.
    #[verifier::spinoff_prover]
    #[verifier::rlimit(100)]
    pub fn rem_child(&mut self, index: usize) -> (r: (Vertex<V>, Vec<Edge<()>>))
        requires
            old(self).wf(),
            old(self).0.vert_live(index as int),
            index != 0,
            old(self).parent_of(index as int) != index,
        ensures
            final(self).0.wf(),
            !final(self).0.vert_live(index as int),
            r.0.index == index,
            r.0.val == old(self).0.vert_at(index as int).val,
            r.0.edges@ == old(self).0.adj(index as int),
            r.1@.len() == old(self).0.adj(index as int).len(),
            forall|j: int|
                0 <= j < r.1@.len() ==> r.1@[j] == old(self).0.edge_at(
                    (#[trigger] old(self).0.adj(index as int)[j]) as int,
                ),
            final(self).0.vert_live(old(self).parent_of(index as int) as int),
    {
        let ghost pre = *self;
        // the edge joining `index` to its parent
        let list_len = self.0.vert(index).edges.len();
        let mut k: usize = 0;
        let mut ep: usize = 0;
        let mut found: bool = false;
        while k < list_len && !found
            invariant
                self.wf(),
                *self == pre,
                self.0.vert_live(index as int),
                index != 0,
                k <= list_len,
                list_len == self.0.adj(index as int).len(),
                !found ==> forall|j: int|
                    0 <= j < k ==> !is_in_edge(
                        self.0,
                        index as int,
                        #[trigger] self.0.adj(index as int)[j],
                    ),
                found ==> ep == self.parent_edge(index as int) && self.0.edge_live(ep as int)
                    && self.0.edge_at(ep as int).verts.1 == index,
            decreases list_len - k, (if found {
                0int
            } else {
                1int
            }),
        {
            let ei = self.0.vert(index).edges[k];
            proof {
                assert(self.0.adj(index as int)[k as int] == ei);
                assert(self.0.edge_live(ei as int));
            }
            if self.0.edge(ei).verts.1 == index {
                proof {
                    lemma_in_filter_first(
                        self.0,
                        index as int,
                        self.0.adj(index as int),
                        k as int,
                    );
                }
                ep = ei;
                found = true;
            } else {
                k = k + 1;
            }
        }
        proof {
            if !found {
                lemma_in_filter_all_neg(self.0, index as int, self.0.adj(index as int));
                assert(self.in_list(index as int).len() == 1);
                assert(false);
            }
        }
        let p = self.0.edge(ep).verts.0;
        proof {
            assert(p == pre.parent_of(index as int));
            assert(p != index);
            assert(self.0.vert_live(p as int));
        }
        // position of the parent edge among the surviving entries of the
        // parent's incident list
        let plen = self.0.vert(p).edges.len();
        let mut j: usize = 0;
        let mut epos: usize = 0;
        while j < plen && self.0.vert(p).edges[j] != ep
            invariant
                self.wf(),
                *self == pre,
                self.0.vert_live(p as int),
                self.0.vert_live(index as int),
                self.0.edge_live(ep as int),
                j <= plen,
                epos <= j,
                plen == self.0.adj(p as int).len(),
            decreases plen - j,
        {
            let ei = self.0.vert(p).edges[j];
            proof {
                assert(self.0.adj(p as int)[j as int] == ei);
                assert(self.0.edge_live(ei as int));
            }
            let touches_index = {
                let e = self.0.edge(ei);
                e.verts.0 == index || e.verts.1 == index
            };
            if !touches_index {
                epos = epos + 1;
            }
            j = j + 1;
        }
        let kids = self.children(index);
        let (vert, removed) = self.0.rem_vert(index);
        let nk = kids.len();
        let mut i: usize = 0;
        while i < nk
            invariant
                self.0.wf(),
                i <= nk,
                nk == kids@.len(),
                self.0.vert_live(p as int),
                !self.0.vert_live(index as int),
            decreases nk - i,
        {
            let c = kids[i];
            let c_live = c < self.0.verts.len() && self.0.verts[c].is_some();
            if c_live {
                let pos = if epos <= usize::MAX - i {
                    epos + i
                } else {
                    usize::MAX
                };
                proof {
                    assert(self.0.vert_live(c as int));
                    assert(c != index);
                    assert(p != index);
                }
                self.0.insert_edge(p, (), c, Some(pos), None);
            }
            i = i + 1;
        }
        (vert, removed)
    }

    /// Grafts another whole tree under `parent`: the other tree's root
    /// becomes a direct child of `parent`. Returns the new index of the
    /// grafted root and the mapping from the other tree's old indices to
    /// their new indices here.
    pub fn add_tree(&mut self, parent: usize, child: Self) -> (r: (usize, crate::Converter))
        requires
            old(self).wf(),
            old(self).0.vert_live(parent as int),
            child.wf(),
            old(self).0.verts@.len() + child.0.verts@.len() <= usize::MAX,
            old(self).0.edges@.len() + child.0.edges@.len() <= usize::MAX,
        ensures
            final(self).wf(),
            r.0 == old(self).0.verts@.len(),
            final(self).0.vert_live(r.0 as int),
            final(self).0.vert_at(r.0 as int).val == child.0.vert_at(0).val,
            final(self).parent_of(r.0 as int) == parent,
            final(self).children_of(parent as int) == old(self).children_of(
                parent as int,
            ).push(r.0),
            forall|w: int|
                old(self).0.vert_live(w) ==> final(self).0.vert_live(w)
                    && (#[trigger] final(self).0.vert_at(w)).val == old(self).0.vert_at(w).val,
            forall|w: int|
                old(self).0.vert_live(w) && w != parent
                    ==> (#[trigger] final(self).children_of(w)) == old(self).children_of(w),
            forall|i: int|
                0 <= i < child.0.verts@.len() ==> (#[trigger] r.1.spec_conv(i)) == (
                if child.0.vert_live(i) {
                    Some((i + old(self).0.verts@.len()) as usize)
                } else {
                    None::<usize>
                }),
            forall|i: int|
                !(0 <= i < child.0.verts@.len()) ==> (#[trigger] r.1.spec_conv(i)) is None,
            // the whole effect: the other tree's arenas appended as a
            // disjoint region, then one edge from `parent` to its root
            exists|mid: Graph<V, (), Directed>, ne: usize|
                {
                    &&& Graph::merged(old(self).0, child.0, mid)
                    &&& #[trigger] Graph::edge_inserted(
                        mid,
                        final(self).0,
                        parent,
                        (),
                        r.0,
                        None,
                        None,
                        ne,
                    )
                },
    {
        let ghost pre = *self;
        let conv = self.0.merge(child.0);
        proof {
            assert(child.0.vert_live(0));
            assert(conv.spec_conv(0) == Some((0 + pre.0.verts@.len()) as usize));
        }
        let child_root = match conv.conv(0) {
            Some(x) => x,
            None => vstd::pervasive::unreached(),
        };
        proof {
            assert(child_root as int == pre.0.verts@.len());
            assert(self.0.vert_live(child_root as int)) by {
                assert(self.0.vert_live(0 + pre.0.verts@.len() as int));
            }
            assert(self.0.vert_live(parent as int)) by {
                assert(self.0.verts@[parent as int] == pre.0.verts@[parent as int]);
            }
        }
        let ghost mid = *self;
        let ne = self.0.add_edge(parent, (), child_root);
        proof {
            let g0 = pre.0;
            let g1 = mid.0;
            let g2 = self.0;
            let gc = child.0;
            let vo = g0.verts@.len() as int;
            let eo = g0.edges@.len() as int;
            assert(Graph::merged(g0, gc, g1));
            assert(Graph::edge_inserted(g1, g2, parent, (), child_root, None, None, ne));
            assert(self.0.vert_at(child_root as int).val == mid.0.vert_at(
                child_root as int,
            ).val);
            assert(mid.0.vert_at(child_root as int).val == child.0.vert_at(0).val) by {
                assert(mid.0.vert_at(0 + pre.0.verts@.len() as int).val == child.0.vert_at(0).val);
            }
            // host vertices keep their lists and in/out filters through the
            // merge
            assert forall|w: int| #[trigger] g0.vert_live(w) implies {
                &&& g1.vert_live(w)
                &&& g1.adj(w) == g0.adj(w)
                &&& g1.vert_at(w).val == g0.vert_at(w).val
                &&& in_filter(g1, w, g0.adj(w)) == in_filter(g0, w, g0.adj(w))
                &&& out_filter(g1, w, g0.adj(w)) == out_filter(g0, w, g0.adj(w))
            } by {
                assert(g1.verts@[w] == g0.verts@[w]);
                assert forall|j: int|
                    0 <= j < g0.adj(w).len() implies g0.edge_at(
                    (#[trigger] g0.adj(w)[j]) as int,
                ) == g1.edge_at(g0.adj(w)[j] as int) by {
                    assert(g0.edge_live(g0.adj(w)[j] as int));
                    assert(g1.edges@[g0.adj(w)[j] as int] == g0.edges@[g0.adj(w)[j] as int]);
                }
                lemma_filters_agree(g0, g1, w, g0.adj(w));
            }
            // merged vertices keep their incoming counts under the shift
            assert forall|i: int| #[trigger] gc.vert_live(i) implies {
                &&& g1.vert_live(i + vo)
                &&& in_list(g1, i + vo).len() == in_list(gc, i).len()
            } by {
                assert(g1.vert_live(i + vo));
                assert(g1.adj(i + vo).len() == gc.adj(i).len());
                assert forall|k: int|
                    0 <= k < gc.adj(i).len() implies ((is_in_edge(
                        g1,
                        i + vo,
                        #[trigger] g1.adj(i + vo)[k],
                    ) <==> is_in_edge(gc, i, gc.adj(i)[k])) && (is_out_edge(
                        g1,
                        i + vo,
                        g1.adj(i + vo)[k],
                    ) <==> is_out_edge(gc, i, gc.adj(i)[k]))) by {
                    let x = gc.adj(i)[k] as int;
                    assert(gc.edge_live(x));
                    assert(g1.adj(i + vo)[k] == gc.adj(i)[k] + eo);
                    assert(g1.edge_live(x + eo));
                    assert(g1.edge_at(x + eo).verts.0 == gc.edge_at(x).verts.0 + vo);
                    assert(g1.edge_at(x + eo).verts.1 == gc.edge_at(x).verts.1 + vo);
                }
                lemma_filters_shift(gc, i, gc.adj(i), g1, i + vo, g1.adj(i + vo));
            }
            // the new edge appends to the two endpoint lists; everything
            // else is untouched, and old entries keep their content
            assert(g2.adj(parent as int) =~= g1.adj(parent as int).push(ne)) by {
                g1.adj(parent as int).insert_ensures(g1.adj(parent as int).len() as int, ne);
            }
            assert(g2.adj(child_root as int) =~= g1.adj(child_root as int).push(ne)) by {
                g1.adj(child_root as int).insert_ensures(
                    g1.adj(child_root as int).len() as int,
                    ne,
                );
            }
            assert forall|w: int| #[trigger] g1.vert_live(w) implies {
                &&& g2.vert_live(w)
                &&& g2.vert_at(w).val == g1.vert_at(w).val
                &&& in_list(g2, w) == (if w == child_root {
                    in_list(g1, w).push(ne)
                } else {
                    in_list(g1, w)
                })
                &&& out_list(g2, w) == (if w == parent {
                    out_list(g1, w).push(ne)
                } else {
                    out_list(g1, w)
                })
            } by {
                assert forall|j: int|
                    0 <= j < g1.adj(w).len() implies g1.edge_at(
                    (#[trigger] g1.adj(w)[j]) as int,
                ) == g2.edge_at(g1.adj(w)[j] as int) by {
                    assert(g1.edge_live(g1.adj(w)[j] as int));
                    assert(g1.adj(w)[j] != ne);
                }
                lemma_filters_agree(g1, g2, w, g1.adj(w));
                assert(parent != child_root);
                if w == parent {
                    lemma_filters_push(g2, w, g1.adj(w), ne);
                    assert(!is_in_edge(g2, w, ne));
                    assert(is_out_edge(g2, w, ne));
                } else if w == child_root {
                    lemma_filters_push(g2, w, g1.adj(w), ne);
                    assert(is_in_edge(g2, w, ne));
                    assert(!is_out_edge(g2, w, ne));
                } else {
                    assert(g2.adj(w) == g1.adj(w));
                }
            }
            // the tree invariant holds afterwards
            assert(in_list(g1, child_root as int).len() == 0) by {
                assert(in_list(gc, 0).len() == 0);
                assert(in_list(g1, 0 + vo).len() == in_list(gc, 0).len());
            }
            assert(self.in_list(0).len() == 0) by {
                assert(g0.vert_live(0));
                assert(in_list(g2, 0) == in_list(g1, 0));
                assert(in_list(g1, 0) == in_list(g0, 0));
            }
            assert forall|v: int| #[trigger] g2.vert_live(v) && v != 0 implies self.in_list(
                v,
            ).len() == 1 by {
                assert(g1.vert_live(v));
                if v == child_root {
                } else if v < vo {
                    assert(g0.vert_live(v)) by {
                        if !g0.vert_live(v) {
                            assert(g1.vert_live(v) <==> g0.vert_live(v)) by {
                                assert(g1.verts@[v] == g0.verts@[v]);
                            }
                        }
                    }
                    assert(in_list(g2, v) == in_list(g1, v));
                    assert(in_list(g1, v) == in_list(g0, v));
                    assert(pre.in_list(v).len() == 1);
                } else {
                    let i = v - vo;
                    assert(g1.vert_live(i + vo));
                    assert(gc.vert_live(i));
                    assert(i != 0);
                    assert(in_list(gc, i).len() == 1);
                    assert(in_list(g2, v) == in_list(g1, v));
                }
            }
            // parent bookkeeping for the grafted root
            assert(in_list(g2, child_root as int) =~= Seq::<usize>::empty().push(ne)) by {
                assert(in_list(g2, child_root as int) == in_list(g1, child_root as int).push(
                    ne,
                ));
                assert(in_list(g1, child_root as int).len() == 0);
                assert(in_list(g1, child_root as int) =~= Seq::<usize>::empty());
            }
            assert(self.parent_edge(child_root as int) == ne);
            assert(self.parent_of(child_root as int) == parent);
            // the parent's child list grows by exactly the grafted root
            assert(self.children_of(parent as int) =~= pre.children_of(parent as int).push(
                child_root,
            )) by {
                assert(out_list(g2, parent as int) == out_list(g0, parent as int).push(ne));
                lemma_filters_elems(g0, parent as int, g0.adj(parent as int));
                assert forall|j: int|
                    0 <= j < out_list(g0, parent as int).len() implies g2.edge_at(
                    (#[trigger] out_list(g0, parent as int)[j]) as int,
                ).verts.1 == g0.edge_at(out_list(g0, parent as int)[j] as int).verts.1 by {
                    let x = out_list(g0, parent as int)[j];
                    assert(out_list(g0, parent as int).contains(x)) by {
                        assert(out_list(g0, parent as int)[j] == x);
                    }
                    assert(g0.adj(parent as int).contains(x));
                    let jj = choose|jj: int|
                        0 <= jj < g0.adj(parent as int).len() && g0.adj(parent as int)[jj] == x;
                    assert(g0.edge_live(g0.adj(parent as int)[jj] as int));
                    assert(g1.edges@[x as int] == g0.edges@[x as int]);
                    assert(x != ne);
                }
                assert(g2.edge_at(ne as int).verts.1 == child_root);
            }
            // other host vertices keep their child lists
            assert forall|w: int| g0.vert_live(w) && w != parent implies (
            #[trigger] self.children_of(w)) == pre.children_of(w) by {
                assert(out_list(g2, w) == out_list(g0, w));
                lemma_filters_elems(g0, w, g0.adj(w));
                assert(targets_of(g2, out_list(g0, w)) =~= targets_of(g0, out_list(g0, w))) by {
                    assert forall|j: int|
                        0 <= j < out_list(g0, w).len() implies g2.edge_at(
                        (#[trigger] out_list(g0, w)[j]) as int,
                    ).verts.1 == g0.edge_at(out_list(g0, w)[j] as int).verts.1 by {
                        let x = out_list(g0, w)[j];
                        assert(out_list(g0, w).contains(x)) by {
                            assert(out_list(g0, w)[j] == x);
                        }
                        assert(g0.adj(w).contains(x));
                        let jj = choose|jj: int|
                            0 <= jj < g0.adj(w).len() && g0.adj(w)[jj] == x;
                        assert(g0.edge_live(g0.adj(w)[jj] as int));
                        assert(g1.edges@[x as int] == g0.edges@[x as int]);
                        assert(x != ne);
                    }
                }
            }
        }
        (child_root, conv)
    }

    /// Detaches the node at `index`, other than the root, together with its
    /// whole connected region, as a standalone tree whose root is the
    /// detached node at index 0. Returns the extracted tree and the mapping
    /// from old indices in this tree to new indices in the extracted one.
    #[verifier::spinoff_prover]
    #[verifier::rlimit(100)]
    pub fn rem_tree(&mut self, index: usize) -> (r: (Self, crate::Converter))
        requires
            old(self).wf(),
            old(self).0.vert_live(index as int),
            index != 0,
        ensures
            final(self).0.wf(),
            r.0.0.wf(),
            r.0.0.vert_live(0),
            r.1.spec_conv(index as int) == Some(0usize),
            forall|i: int|
                0 <= i < old(self).0.verts@.len() ==> (#[trigger] r.1.spec_conv(i))
                    == r.1.table@[i],
            forall|i: int|
                !(0 <= i < old(self).0.verts@.len()) ==> (#[trigger] r.1.spec_conv(i)) is None,
            // the whole effect: first the edge to the parent goes, then the
            // connected region of `index` is isolated into the result
            exists|g0: Graph<V, (), Directed>|
                {
                    &&& #[trigger] Graph::edge_removed(
                        old(self).0,
                        g0,
                        old(self).parent_edge(index as int),
                    )
                    &&& Graph::isolated(g0, final(self).0, r.0.0, r.1.table@, index)
                },
    {
        let ghost pre = *self;
        // cut the edge to the parent
        let list_len = self.0.vert(index).edges.len();
        let mut k: usize = 0;
        let mut ep: usize = 0;
        let mut found: bool = false;
        while k < list_len && !found
            invariant
                self.wf(),
                *self == pre,
                self.0.vert_live(index as int),
                index != 0,
                k <= list_len,
                list_len == self.0.adj(index as int).len(),
                !found ==> forall|j: int|
                    0 <= j < k ==> !is_in_edge(
                        self.0,
                        index as int,
                        #[trigger] self.0.adj(index as int)[j],
                    ),
                found ==> ep == self.parent_edge(index as int) && self.0.edge_live(ep as int),
            decreases list_len - k, (if found {
                0int
            } else {
                1int
            }),
        {
            let ei = self.0.vert(index).edges[k];
            proof {
                assert(self.0.adj(index as int)[k as int] == ei);
                assert(self.0.edge_live(ei as int));
            }
            if self.0.edge(ei).verts.1 == index {
                proof {
                    lemma_in_filter_first(
                        self.0,
                        index as int,
                        self.0.adj(index as int),
                        k as int,
                    );
                }
                ep = ei;
                found = true;
            } else {
                k = k + 1;
            }
        }
        proof {
            if !found {
                lemma_in_filter_all_neg(self.0, index as int, self.0.adj(index as int));
                assert(self.in_list(index as int).len() == 1);
                assert(false);
            }
            assert(ep == pre.parent_edge(index as int));
        }
        self.0.rem_edge(ep);
        let ghost g0 = self.0;
        proof {
            assert(self.0.vert_live(index as int));
        }
        let (part, conv) = self.0.isolate(index);
        proof {
            assert(conv.table@[index as int] == Some(0usize));
            let order = choose|order: Seq<usize>|
                #![trigger Graph::<V, (), Directed>::region_order(g0, conv.table@, order)]
                Graph::<V, (), Directed>::region_order(g0, conv.table@, order)
                    && Graph::<V, (), Directed>::extracted(g0, self.0, part, conv.table@, order);
            assert(Graph::<V, (), Directed>::region_order(g0, conv.table@, order));
            assert(conv.table@.len() == g0.verts@.len());
            assert((index as int) < conv.table@.len());
            assert(conv.table@[index as int] is Some);
            assert(order.contains(index));
            assert(order.len() > 0) by {
                let t = choose|t: int| 0 <= t < order.len() && order[t] == index;
                assert(0 <= t < order.len());
            }
            assert(part.verts@.len() == order.len());
            assert(part.vert_live(0));
            assert(conv.spec_conv(index as int) == Some(0usize));
            assert(Graph::edge_removed(pre.0, g0, pre.parent_edge(index as int)));
            assert(Graph::isolated(g0, self.0, part, conv.table@, index));
        }
        (Tree(part), conv)
    }

    /// The children of `parent`, in edge-insertion order.
    pub fn children(&self, parent: usize) -> (r: Vec<usize>)
        requires
            self.0.wf(),
            self.0.vert_live(parent as int),
        ensures
            r@ == self.children_of(parent as int),
    {
        let mut r: Vec<usize> = Vec::new();
        let list_len = self.0.vert(parent).edges.len();
        let mut k: usize = 0;
        proof {
            assert(self.0.adj(parent as int).subrange(0, 0) =~= Seq::<usize>::empty());
            assert(r@ =~= targets_of(
                self.0,
                out_filter(self.0, parent as int, self.0.adj(parent as int).subrange(0, 0)),
            ));
        }
        while k < list_len
            invariant
                self.0.wf(),
                self.0.vert_live(parent as int),
                k <= list_len,
                list_len == self.0.adj(parent as int).len(),
                r@ == targets_of(
                    self.0,
                    out_filter(
                        self.0,
                        parent as int,
                        self.0.adj(parent as int).subrange(0, k as int),
                    ),
                ),
            decreases list_len - k,
        {
            let ei = self.0.vert(parent).edges[k];
            proof {
                assert(self.0.adj(parent as int)[k as int] == ei);
                assert(self.0.edge_live(ei as int));
            }
            let e = self.0.edge(ei);
            let ghost prefix = self.0.adj(parent as int).subrange(0, k as int);
            if e.verts.0 == parent {
                r.push(e.verts.1);
            }
            proof {
                assert(self.0.adj(parent as int).subrange(0, k as int + 1) =~= prefix.push(ei));
                lemma_filters_push(self.0, parent as int, prefix, ei);
                if e.verts.0 == parent {
                    assert(targets_of(
                        self.0,
                        out_filter(self.0, parent as int, prefix).push(ei),
                    ) =~= targets_of(self.0, out_filter(self.0, parent as int, prefix)).push(
                        e.verts.1,
                    ));
                } else {
                    assert(!is_out_edge(self.0, parent as int, ei));
                }
            }
            k = k + 1;
        }
        proof {
            assert(self.0.adj(parent as int).subrange(0, list_len as int) =~= self.0.adj(
                parent as int,
            ));
        }
        r
    }
}

} // verus!
