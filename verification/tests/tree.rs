use index_graph::Tree;

#[test]
fn root_with_two_children() {
    // build a tree with root R and children A, B:
    // children(R) == [A, B] and parent(A) == R
    let mut tree: Tree<i32> = Tree::new(0);
    let a = tree.add_child(0, 1);
    let b = tree.add_child(0, 2);
    assert_eq!(tree.children(0), vec![a, b]);
    assert_eq!(tree.parent(a), Ok(0));
    assert_eq!(tree.parent(b), Ok(0));
    assert_eq!(tree.parent(0), Err(0));
}

#[test]
fn values_live_behind_stable_indices() {
    let mut tree: Tree<&'static str> = Tree::new("root");
    let a = tree.add_child(0, "a");
    let b = tree.add_child(a, "b");
    assert_eq!(tree.0.vert(0).val, "root");
    assert_eq!(tree.0.vert(a).val, "a");
    assert_eq!(tree.0.vert(b).val, "b");
    assert_eq!(tree.parent(b), Ok(a));
}

#[test]
fn rem_child_reparents_children_in_place() {
    // 7-node tree: root + 2 children, each with 2 grandchildren;
    // rem_child on the first child reparents its 2 children to the root,
    // at the removed child's former position: children(root) goes 2 -> 3
    let mut tree: Tree<i32> = Tree::new(0);
    let c1 = tree.add_child(0, 1);
    let c2 = tree.add_child(0, 2);
    let g11 = tree.add_child(c1, 11);
    let g12 = tree.add_child(c1, 12);
    let g21 = tree.add_child(c2, 21);
    let g22 = tree.add_child(c2, 22);
    assert_eq!(tree.children(0), vec![c1, c2]);
    let (vert, _edges) = tree.rem_child(c1);
    assert_eq!(vert.val, 1);
    let kids = tree.children(0);
    assert_eq!(kids.len(), 3);
    // the grandchildren slot in where c1 stood, before c2
    assert_eq!(kids, vec![g11, g12, c2]);
    assert_eq!(tree.parent(g11), Ok(0));
    assert_eq!(tree.parent(g12), Ok(0));
    assert_eq!(tree.children(c2), vec![g21, g22]);
}

#[test]
fn rem_child_in_middle_keeps_sibling_order() {
    let mut tree: Tree<i32> = Tree::new(0);
    let c1 = tree.add_child(0, 1);
    let c2 = tree.add_child(0, 2);
    let c3 = tree.add_child(0, 3);
    let g = tree.add_child(c2, 20);
    let _ = tree.rem_child(c2);
    assert_eq!(tree.children(0), vec![c1, g, c3]);
    assert_eq!(tree.parent(g), Ok(0));
}

#[test]
fn rem_tree_detaches_subtree_as_tree() {
    let mut tree: Tree<i32> = Tree::new(0);
    let c1 = tree.add_child(0, 1);
    let c2 = tree.add_child(0, 2);
    let g1 = tree.add_child(c1, 11);
    let g2 = tree.add_child(c1, 12);
    let (sub, conv) = tree.rem_tree(c1);
    // the detached node becomes the standalone tree's root, index 0
    assert_eq!(conv.conv(c1), Some(0));
    assert_eq!(sub.0.vert(0).val, 1);
    let ng1 = conv.conv(g1).unwrap();
    let ng2 = conv.conv(g2).unwrap();
    assert_eq!(sub.0.vert(ng1).val, 11);
    assert_eq!(sub.0.vert(ng2).val, 12);
    assert_eq!(sub.children(0), vec![ng1, ng2]);
    // the source tree lost the subtree
    assert_eq!(tree.children(0), vec![c2]);
    assert_eq!(conv.conv(c2), None);
    assert_eq!(conv.conv(0), None);
}

#[test]
fn add_tree_grafts_under_parent() {
    let mut tree: Tree<i32> = Tree::new(0);
    let c1 = tree.add_child(0, 1);
    let mut other: Tree<i32> = Tree::new(100);
    let o1 = other.add_child(0, 101);
    let (new_root, conv) = tree.add_tree(c1, other);
    assert_eq!(conv.conv(0), Some(new_root));
    assert_eq!(tree.0.vert(new_root).val, 100);
    assert_eq!(tree.children(c1), vec![new_root]);
    let no1 = conv.conv(o1).unwrap();
    assert_eq!(tree.0.vert(no1).val, 101);
    assert_eq!(tree.children(new_root), vec![no1]);
    assert_eq!(tree.parent(new_root), Ok(c1));
}

#[test]
fn rem_tree_then_add_tree_round_trip() {
    let mut tree: Tree<i32> = Tree::new(0);
    let c1 = tree.add_child(0, 1);
    let _g1 = tree.add_child(c1, 11);
    let (sub, _conv) = tree.rem_tree(c1);
    let (new_root, conv2) = tree.add_tree(0, sub);
    assert_eq!(tree.children(0), vec![new_root]);
    assert_eq!(tree.0.vert(new_root).val, 1);
    let ng = conv2.conv(1).unwrap();
    assert_eq!(tree.0.vert(ng).val, 11);
    assert_eq!(tree.children(new_root), vec![ng]);
}
