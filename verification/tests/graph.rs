use index_graph::Directed;
use index_graph::Graph;
use index_graph::Undirected;

#[test]
fn add_vert_returns_fresh_indices() {
    let mut g: Graph<i32, i32, Undirected> = Graph::new();
    assert_eq!(g.add_vert(10), 0);
    assert_eq!(g.add_vert(20), 1);
    assert_eq!(g.add_vert(30), 2);
    assert_eq!(g.vert(1).val, 20);
    assert_eq!(g.vert(1).index, 1);
}

#[test]
fn removed_slot_is_reused_lifo() {
    // after remove(i) then insert(x) with an empty free list before the
    // removal, the new index equals i
    let mut g: Graph<i32, i32, Undirected> = Graph::new();
    let a = g.add_vert(1);
    let b = g.add_vert(2);
    let _c = g.add_vert(3);
    let _ = g.rem_vert(b);
    let again = g.add_vert(4);
    assert_eq!(again, b);
    assert_eq!(g.vert(again).val, 4);
    assert_eq!(g.vert(a).val, 1);
}

#[test]
fn edge_endpoints_and_accessors() {
    let mut g: Graph<i32, i32, Undirected> = Graph::new();
    let a = g.add_vert(1);
    let b = g.add_vert(2);
    let e = g.add_edge(a, 99, b);
    assert_eq!(g.edge(e).weight, 99);
    assert_eq!(g.edge(e).verts, (a, b));
    assert_eq!(g.edge(e).start(&g).index, a);
    assert_eq!(g.edge(e).end(&g).index, b);
    let edge = g.edge(e);
    let (s, t) = edge.verts(&g);
    assert_eq!((s.index, t.index), (a, b));
}

#[test]
fn insert_edge_respects_positions() {
    // insert_edge(0, w, 1, Some(0), None) on a 2-vertex undirected graph
    // places the new edge at position 0 of vertex 0's incident list and at
    // the end of vertex 1's
    let mut g: Graph<i32, i32, Undirected> = Graph::new();
    let v0 = g.add_vert(0);
    let v1 = g.add_vert(1);
    let e_first = g.add_edge(v0, 5, v1);
    let e_new = g.insert_edge(v0, 7, v1, Some(0), None);
    assert_eq!(g.vert(v0).edges, vec![e_new, e_first]);
    assert_eq!(g.vert(v1).edges, vec![e_first, e_new]);
}

#[test]
fn self_loop_listed_once() {
    let mut g: Graph<i32, i32, Undirected> = Graph::new();
    let v0 = g.add_vert(0);
    let e = g.add_edge(v0, 1, v0);
    assert_eq!(g.vert(v0).edges, vec![e]);
    let removed = g.rem_edge(e);
    assert_eq!(removed.index, e);
    assert!(g.vert(v0).edges.is_empty());
}

#[test]
fn set_edge_replaces_weight_in_place() {
    // set_edge(0, w2, 1) after add_edge(0, w1, 1) returns
    // (same_index, Some(w1)) and the weight is now w2
    let mut g: Graph<i32, i32, Undirected> = Graph::new();
    let v0 = g.add_vert(0);
    let v1 = g.add_vert(1);
    let e = g.add_edge(v0, 41, v1);
    let (idx, old) = g.set_edge(v0, 42, v1);
    assert_eq!(idx, e);
    assert_eq!(old, Some(41));
    assert_eq!(g.edge(e).weight, 42);
}

#[test]
fn set_edge_on_undirected_matches_reverse_orientation() {
    let mut g: Graph<i32, i32, Undirected> = Graph::new();
    let v0 = g.add_vert(0);
    let v1 = g.add_vert(1);
    let e = g.add_edge(v1, 8, v0);
    let (idx, old) = g.set_edge(v0, 9, v1);
    assert_eq!(idx, e);
    assert_eq!(old, Some(8));
}

#[test]
fn set_edge_on_directed_respects_orientation() {
    let mut g: Graph<i32, i32, Directed> = Graph::new();
    let v0 = g.add_vert(0);
    let v1 = g.add_vert(1);
    let e_rev = g.add_edge(v1, 8, v0);
    let (idx, old) = g.set_edge(v0, 9, v1);
    assert_ne!(idx, e_rev);
    assert_eq!(old, None);
    assert_eq!(g.edge(e_rev).weight, 8);
    assert_eq!(g.edge(idx).weight, 9);
}

#[test]
fn set_edge_without_match_adds_edge() {
    let mut g: Graph<i32, i32, Undirected> = Graph::new();
    let v0 = g.add_vert(0);
    let v1 = g.add_vert(1);
    let (idx, old) = g.set_edge(v0, 3, v1);
    assert_eq!(old, None);
    assert_eq!(g.edge(idx).verts, (v0, v1));
    assert_eq!(g.edge(idx).weight, 3);
}

#[test]
fn replace_edge_uses_predicate() {
    let mut g: Graph<i32, i32, Undirected> = Graph::new();
    let v0 = g.add_vert(0);
    let v1 = g.add_vert(1);
    let e1 = g.add_edge(v0, 10, v1);
    let _e2 = g.add_edge(v0, 20, v1);
    let (idx, old) = g.replace_edge(v0, 15, v1, |e| e.weight == 10);
    assert_eq!(idx, e1);
    assert_eq!(old, Some(10));
    assert_eq!(g.edge(e1).weight, 15);
}

#[test]
fn rem_vert_returns_all_incident_edges() {
    // removing a vertex with 3 incident edges returns exactly those 3 and
    // leaves no dangling reference in any other incident list
    let mut g: Graph<i32, i32, Undirected> = Graph::new();
    let hub = g.add_vert(0);
    let a = g.add_vert(1);
    let b = g.add_vert(2);
    let c = g.add_vert(3);
    let ea = g.add_edge(hub, 1, a);
    let eb = g.add_edge(hub, 2, b);
    let ec = g.add_edge(c, 3, hub);
    let keep = g.add_edge(a, 4, b);
    let (vert, edges) = g.rem_vert(hub);
    assert_eq!(vert.index, hub);
    assert_eq!(vert.val, 0);
    let mut removed: Vec<usize> = edges.iter().map(|e| e.index).collect();
    removed.sort();
    assert_eq!(removed, vec![ea, eb, ec]);
    // no dangling references
    assert_eq!(g.vert(a).edges, vec![keep]);
    assert_eq!(g.vert(b).edges, vec![keep]);
    assert!(g.vert(c).edges.is_empty());
}

#[test]
fn adjacency_iterator_filters_by_direction() {
    let mut g: Graph<i32, i32, Directed> = Graph::new();
    let v0 = g.add_vert(0);
    let v1 = g.add_vert(1);
    let v2 = g.add_vert(2);
    let e_out = g.add_edge(v0, 1, v1);
    let e_in = g.add_edge(v2, 2, v0);
    let loop_e = g.add_edge(v0, 3, v0);

    let vert = g.vert(v0);
    let mut all = vert.edges(&g);
    let mut seen: Vec<usize> = Vec::new();
    while let Some(e) = all.next() {
        seen.push(e.index);
    }
    assert_eq!(seen, vec![e_out, e_in, loop_e]);

    let mut outgoing = vert.outgoing(&g);
    let mut seen_out: Vec<usize> = Vec::new();
    while let Some(e) = outgoing.next() {
        seen_out.push(e.index);
    }
    assert_eq!(seen_out, vec![e_out, loop_e]);

    let mut incoming = vert.incoming(&g);
    let mut seen_in: Vec<usize> = Vec::new();
    while let Some(e) = incoming.next() {
        seen_in.push(e.index);
    }
    assert_eq!(seen_in, vec![e_in, loop_e]);
}

#[test]
fn vertex_swap_exchanges_payloads() {
    let mut g: Graph<i32, i32, Undirected> = Graph::new();
    let v0 = g.add_vert(5);
    let mut other = 6;
    g.vert_mut(v0).swap(&mut other);
    assert_eq!(other, 5);
    assert_eq!(g.vert(v0).val, 6);
}

#[test]
fn vert_mut_and_edge_mut_allow_updates() {
    let mut g: Graph<i32, i32, Undirected> = Graph::new();
    let v0 = g.add_vert(1);
    let v1 = g.add_vert(2);
    let e = g.add_edge(v0, 3, v1);
    g.vert_mut(v0).val = 11;
    g.edge_mut(e).weight = 33;
    assert_eq!(g.vert(v0).val, 11);
    assert_eq!(g.edge(e).weight, 33);
    let edge: index_graph::Edge<i32> = index_graph::Edge::new(e, 0, v0, v1);
    let sm = edge.start_mut(&mut g);
    sm.val = 12;
    assert_eq!(g.vert(v0).val, 12);
    let em = edge.end_mut(&mut g);
    em.val = 22;
    assert_eq!(g.vert(v1).val, 22);
}

#[test]
fn isolate_extracts_connected_region() {
    let mut g: Graph<i32, i32, Undirected> = Graph::new();
    let a = g.add_vert(1);
    let b = g.add_vert(2);
    let c = g.add_vert(3);
    let d = g.add_vert(4);
    let _eab = g.add_edge(a, 10, b);
    let ecd = g.add_edge(c, 20, d);
    let (part, conv) = g.isolate(c);
    // the region of c is {c, d}, c renumbered to 0
    assert_eq!(conv.conv(c), Some(0));
    let nd = conv.conv(d).unwrap();
    assert_eq!(conv.conv(a), None);
    assert_eq!(conv.conv(b), None);
    assert_eq!(part.vert(0).val, 3);
    assert_eq!(part.vert(nd).val, 4);
    assert_eq!(part.vert(0).edges.len(), 1);
    let ne = part.vert(0).edges[0];
    assert_eq!(part.edge(ne).weight, 20);
    // the remainder keeps a and b untouched, c and d are gone
    assert_eq!(g.vert(a).val, 1);
    assert_eq!(g.vert(b).val, 2);
    assert!(g.verts[c].is_none());
    assert!(g.verts[d].is_none());
    assert!(g.edges[ecd].is_none());
}

#[test]
fn isolate_then_merge_restores_counts_and_adjacency() {
    // round trip: isolate a region and merge it back; vertex and edge
    // counts and the adjacency structure are reproduced
    let mut g: Graph<i32, i32, Undirected> = Graph::new();
    let a = g.add_vert(1);
    let b = g.add_vert(2);
    let c = g.add_vert(3);
    let d = g.add_vert(4);
    let _eab = g.add_edge(a, 10, b);
    let _ecd = g.add_edge(c, 20, d);
    let live_verts = |g: &Graph<i32, i32, Undirected>| {
        g.verts.iter().filter(|v| v.is_some()).count()
    };
    let live_edges = |g: &Graph<i32, i32, Undirected>| {
        g.edges.iter().filter(|e| e.is_some()).count()
    };
    let (vc0, ec0) = (live_verts(&g), live_edges(&g));
    let (part, conv) = g.isolate(c);
    let back = g.merge(part);
    assert_eq!(live_verts(&g), vc0);
    assert_eq!(live_edges(&g), ec0);
    // c now lives where the two mappings compose to
    let c_in_part = conv.conv(c).unwrap();
    let c_now = back.conv(c_in_part).unwrap();
    let d_now = back.conv(conv.conv(d).unwrap()).unwrap();
    assert_eq!(g.vert(c_now).val, 3);
    assert_eq!(g.vert(d_now).val, 4);
    // the region's adjacency came back: one edge joins c and d
    assert_eq!(g.vert(c_now).edges.len(), 1);
    let e = g.vert(c_now).edges[0];
    assert_eq!(g.edge(e).weight, 20);
    let (x, y) = g.edge(e).verts;
    assert!((x, y) == (c_now, d_now) || (x, y) == (d_now, c_now));
}

#[test]
fn merge_appends_disjoint_region() {
    let mut g: Graph<i32, i32, Undirected> = Graph::new();
    let a = g.add_vert(1);
    let mut h: Graph<i32, i32, Undirected> = Graph::new();
    let x = h.add_vert(7);
    let y = h.add_vert(8);
    let _exy = h.add_edge(x, 70, y);
    let conv = g.merge(h);
    let nx = conv.conv(x).unwrap();
    let ny = conv.conv(y).unwrap();
    assert_eq!(nx, 1);
    assert_eq!(ny, 2);
    assert_eq!(g.vert(nx).val, 7);
    assert_eq!(g.vert(ny).val, 8);
    assert_eq!(g.vert(a).val, 1);
    let ne = g.vert(nx).edges[0];
    assert_eq!(g.edge(ne).verts, (nx, ny));
    assert_eq!(g.edge(ne).weight, 70);
}

#[test]
fn compress_renumbers_densely() {
    let mut g: Graph<i32, i32, Undirected> = Graph::new();
    let a = g.add_vert(1);
    let b = g.add_vert(2);
    let c = g.add_vert(3);
    let _e = g.add_edge(a, 5, c);
    let _ = g.rem_vert(b);
    let conv = g.compress();
    assert_eq!(conv.conv(a), Some(0));
    assert_eq!(conv.conv(b), None);
    assert_eq!(conv.conv(c), Some(1));
    assert_eq!(g.verts.len(), 2);
    assert!(g.verts.iter().all(|v| v.is_some()));
    assert_eq!(g.vert(0).val, 1);
    assert_eq!(g.vert(1).val, 3);
    let ne = g.vert(0).edges[0];
    assert_eq!(g.edge(ne).weight, 5);
    assert_eq!(g.edge(ne).verts, (0, 1));
}

#[test]
fn split_partitions_into_regions() {
    let mut g: Graph<i32, i32, Undirected> = Graph::new();
    let a = g.add_vert(1);
    let b = g.add_vert(2);
    let c = g.add_vert(3);
    let _eab = g.add_edge(a, 10, b);
    let parts = g.split();
    assert_eq!(parts.len(), 2);
    let (first, conv_first) = &parts[0];
    let (second, conv_second) = &parts[1];
    assert_eq!(conv_first.conv(a), Some(0));
    assert_eq!(first.vert(0).val, 1);
    let nb = conv_first.conv(b).unwrap();
    assert_eq!(first.vert(nb).val, 2);
    assert_eq!(conv_second.conv(c), Some(0));
    assert_eq!(second.vert(0).val, 3);
    assert!(second.vert(0).edges.is_empty());
}

#[test]
fn converter_unknown_index_is_none() {
    let conv = index_graph::Converter::new();
    assert_eq!(conv.conv(0), None);
    assert_eq!(conv.conv(100), None);
}

#[test]
fn edge_new_builds_edge() {
    let e: index_graph::Edge<i32> = index_graph::Edge::new(4, 9, 1, 2);
    assert_eq!(e.index, 4);
    assert_eq!(e.weight, 9);
    assert_eq!(e.verts, (1, 2));
}
