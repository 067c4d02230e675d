use zhang_shasha::{Tree, TreeNode};

fn leaf(label: &str) -> TreeNode {
    TreeNode::new(label)
}

fn node(label: &str, children: Vec<TreeNode>) -> TreeNode {
    TreeNode::new(label).with_children(children.into_iter().map(Box::new).collect())
}

#[test]
fn equal_single_nodes_are_at_distance_zero() {
    let a = Tree::new(&leaf("A"));
    let b = Tree::new(&leaf("A"));
    assert_eq!(0, a.tree_edit_distance(&b));
    assert_eq!(0, a.weighted_tree_edit_distance(&b, 5, 7, 9));
}

#[test]
fn single_nodes_relabel_when_cheaper() {
    let a = Tree::new(&leaf("A"));
    let b = Tree::new(&leaf("B"));
    assert_eq!(3, a.weighted_tree_edit_distance(&b, 2, 2, 3));
    assert_eq!(4, a.weighted_tree_edit_distance(&b, 2, 2, 9));
}

#[test]
fn weighted_self_distance_is_zero() {
    let root = node("R", vec![node("S", vec![leaf("T")]), leaf("U")]);
    let t = Tree::new(&root);
    assert_eq!(0, t.weighted_tree_edit_distance(&t, 3, 4, 5));
}

#[test]
fn symmetric_with_equal_insert_and_delete_costs() {
    let r1 = node("A", vec![leaf("B"), leaf("C"), node("D", vec![leaf("E")])]);
    let r2 = node("X", vec![leaf("C"), node("Y", vec![leaf("Z")])]);
    let t1 = Tree::new(&r1);
    let t2 = Tree::new(&r2);
    assert_eq!(
        t1.weighted_tree_edit_distance(&t2, 2, 2, 3),
        t2.weighted_tree_edit_distance(&t1, 2, 2, 3)
    );
}

#[test]
fn insertion_and_deletion_costs_are_told_apart() {
    let small = Tree::new(&leaf("A"));
    let big = Tree::new(&node("A", vec![leaf("B"), leaf("C")]));
    // two insertions from the small tree to the big one, two deletions back
    assert_eq!(10, small.weighted_tree_edit_distance(&big, 5, 1, 1));
    assert_eq!(2, big.weighted_tree_edit_distance(&small, 5, 1, 1));
}

#[test]
fn zero_costs_give_zero() {
    let r1 = node("A", vec![leaf("B"), leaf("C")]);
    let r2 = node("X", vec![node("Y", vec![leaf("Z")])]);
    let t1 = Tree::new(&r1);
    let t2 = Tree::new(&r2);
    assert_eq!(0, t1.weighted_tree_edit_distance(&t2, 0, 0, 0));
}

#[test]
fn child_order_matters() {
    let r1 = node("A", vec![leaf("B"), leaf("C")]);
    let r2 = node("A", vec![leaf("C"), leaf("B")]);
    let t1 = Tree::new(&r1);
    let t2 = Tree::new(&r2);
    assert_eq!(2, t1.tree_edit_distance(&t2));
}

#[test]
fn single_node_index() {
    let root = leaf("A");
    let t = Tree::new(&root);
    assert_eq!(1, t.len());
    assert_eq!(&vec![0usize], t.left_most_leaf_descendant());
    assert_eq!(&vec![0usize], t.key_roots());
    assert_eq!("A", t.labels()[0]);
}

#[test]
fn deep_chain_is_indexed_without_recursion() {
    let mut root = leaf("n0");
    for i in 1..20000 {
        root = node(&format!("n{}", i), vec![root]);
    }
    let t = Tree::new(&root);
    assert_eq!(20000, t.len());
    assert_eq!(&vec![19999usize], t.key_roots());
    assert_eq!(0, t.left_most_leaf_descendant()[19999]);
    std::mem::forget(root);
}

#[test]
fn fixture_labels_in_post_order() {
    let root = node("A", vec![leaf("B"), node("C", vec![leaf("E"), leaf("F")]), leaf("D")]);
    let t = Tree::new(&root);
    let labels: Vec<&str> = t.labels().iter().map(|s| s.as_str()).collect();
    assert_eq!(vec!["B", "E", "F", "C", "D", "A"], labels);
}
