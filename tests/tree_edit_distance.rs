use zhang_shasha::{Tree, TreeNode};

fn leaf(label: &str) -> TreeNode {
    TreeNode::new(label)
}

fn node(label: &str, children: Vec<TreeNode>) -> TreeNode {
    TreeNode::new(label).with_children(children.into_iter().map(Box::new).collect())
}

//                             A  5
//                       +-----+-----+
//                       B 0   C 3   D 4
//                          +--+--+
//                          E 1   F 2
fn fixture() -> TreeNode {
    node("A", vec![leaf("B"), node("C", vec![leaf("E"), leaf("F")]), leaf("D")])
}

#[test]
fn test_post_order() {
    let root_node = fixture();
    assert_eq!("B", root_node.post_order()[0].label);
    assert_eq!("E", root_node.post_order()[1].label);
    assert_eq!("F", root_node.post_order()[2].label);
    assert_eq!("C", root_node.post_order()[3].label);
    assert_eq!("D", root_node.post_order()[4].label);
    assert_eq!("A", root_node.post_order()[5].label);
}

#[test]
fn test_leftmost_leaf_descendant() {
    let root_node = fixture();
    let tree = Tree::new(&root_node);

    assert_eq!(0, tree.left_most_leaf_descendant()[5]);
    assert_eq!(4, tree.left_most_leaf_descendant()[4]);
    assert_eq!(1, tree.left_most_leaf_descendant()[3]);
    assert_eq!(2, tree.left_most_leaf_descendant()[2]);
    assert_eq!(1, tree.left_most_leaf_descendant()[1]);
    assert_eq!(0, tree.left_most_leaf_descendant()[0]);
}

#[test]
fn test_key_roots() {
    let root_node = fixture();
    let tree = Tree::new(&root_node);

    assert_eq!(2, tree.key_roots()[0]);
    assert_eq!(3, tree.key_roots()[1]);
    assert_eq!(4, tree.key_roots()[2]);
    assert_eq!(5, tree.key_roots()[3]);
}

#[test]
fn test_self_distance_is_zero() {
    let tree_1_root_node = node(
        "A",
        vec![leaf("B"), node("C", vec![leaf("C1"), leaf("C2")]), leaf("D")],
    );
    let tree_2_root_node = leaf("X");

    let tree_1 = Tree::new(&tree_1_root_node);
    let tree_2 = Tree::new(&tree_2_root_node);

    assert_eq!(0, tree_1.tree_edit_distance(&tree_1));
    assert_eq!(0, tree_2.tree_edit_distance(&tree_2));

    assert_ne!(0, tree_1.tree_edit_distance(&tree_2));
    assert_ne!(0, tree_2.tree_edit_distance(&tree_1));
}

#[test]
fn test_distance_with_single_node_trees() {
    let tree_1_root_node = leaf("A");
    let tree_2_root_node = leaf("B");

    let tree_1 = Tree::new(&tree_1_root_node);
    let tree_2 = Tree::new(&tree_2_root_node);

    assert_eq!(1, tree_1.tree_edit_distance(&tree_2));
    assert_eq!(1, tree_2.tree_edit_distance(&tree_1));
}

#[test]
fn test_distance_with_trees() {
    let tree_1_root_node = node("A", vec![leaf("B"), leaf("C"), node("D", vec![leaf("E")])]);
    let tree_2_root_node = node("X", vec![leaf("C"), node("Y", vec![leaf("Z")])]);

    let tree_1 = Tree::new(&tree_1_root_node);
    let tree_2 = Tree::new(&tree_2_root_node);

    assert_eq!(4, tree_1.tree_edit_distance(&tree_2));
    assert_eq!(4, tree_2.tree_edit_distance(&tree_1));
}

#[test]
fn test_weighted_distance() {
    let tree_1_root_node = leaf("A");
    let tree_2_root_node = leaf("B");

    let tree_1 = Tree::new(&tree_1_root_node);
    let tree_2 = Tree::new(&tree_2_root_node);

    assert_eq!(2, tree_1.weighted_tree_edit_distance(&tree_2, 1, 1, 3));
    assert_eq!(2, tree_2.weighted_tree_edit_distance(&tree_1, 1, 1, 3));
}
